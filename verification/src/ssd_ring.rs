//! The index of the SSD cache: a set of append-only rings, one per shard file.
//!
//! Positions in a ring are logical and only grow; the file offset of a position is its remainder
//! by the shard's capacity. Writing moves the head forward, and the tail follows so that no more
//! than the capacity lies between them. What falls behind the tail is evicted.
use std::collections::VecDeque;
use vstd::arithmetic::div_mod::{
    lemma_add_mod_noop, lemma_fundamental_div_mod, lemma_fundamental_div_mod_converse, lemma_mod_bound,
    lemma_mod_multiples_basic, lemma_small_mod,
};
use vstd::prelude::*;

use crate::align::{align_up_u64, aligned_up, lemma_aligned_up, SSD_ALIGNMENT_BYTES};
use crate::assoc::{lemma_map_has_row, rows_map, rows_unique, AssocMap, MapKey};
use crate::error::ArgumentError;
use crate::ids::PutIDForAKey;

verus! {

/// A key and a version, as a mathematical value.
pub type KeyId = (Seq<char>, PutIDForAKey);

/// One version of one key on the SSD.
#[derive(Debug)]
pub struct KvSsdKey {
    pub key: String,
    pub put_id: PutIDForAKey,
}

impl View for KvSsdKey {
    type V = KeyId;

    open spec fn view(&self) -> KeyId {
        (self.key@, self.put_id)
    }
}

impl Clone for KvSsdKey {
    fn clone(&self) -> (r: Self)
        ensures
            r@ == self@,
    {
        KvSsdKey { key: self.key.clone(), put_id: self.put_id }
    }
}

impl MapKey for KvSsdKey {
    fn same(&self, other: &Self) -> (r: bool) {
        self.key == other.key && self.put_id.0 == other.put_id.0 && self.put_id.1 == other.put_id.1
    }

    fn dup(&self) -> (r: Self) {
        KvSsdKey { key: self.key.clone(), put_id: self.put_id }
    }
}

/// Where a value lies.
#[derive(Clone, Copy, Debug, PartialEq, Eq, Structural)]
pub struct SsdIndexEntry {
    pub shard_id: usize,
    pub begin: u64,
    pub len: u64,
    pub aligned_len: u64,
    pub file_offset: u64,
}

impl SsdIndexEntry {
    /// The logical position behind the last byte.
    pub open spec fn end(self) -> int {
        self.begin + self.aligned_len
    }

    /// The two entries share no logical position.
    pub open spec fn apart(self, other: SsdIndexEntry) -> bool {
        ||| self.shard_id != other.shard_id
        ||| self.end() <= other.begin
        ||| other.end() <= self.begin
    }

    /// The two entries share no byte of a shard file.
    pub open spec fn file_apart(self, other: SsdIndexEntry) -> bool {
        ||| self.shard_id != other.shard_id
        ||| self.file_offset + self.aligned_len <= other.file_offset
        ||| other.file_offset + other.aligned_len <= self.file_offset
    }
}

/// A location that readers hold, and how many of them.
#[derive(Clone, Copy, Debug, PartialEq, Eq, Structural)]
pub struct SsdReadPinInfo {
    pub entry: SsdIndexEntry,
    pub count: usize,
}

/// How far the write of an entry has come.
#[derive(Clone, Copy, Debug, PartialEq, Eq, Structural)]
pub enum SsdEntryState {
    Writing(SsdIndexEntry),
    Committed(SsdIndexEntry),
}

impl SsdEntryState {
    pub open spec fn spec_entry(self) -> SsdIndexEntry {
        match self {
            SsdEntryState::Writing(entry) => entry,
            SsdEntryState::Committed(entry) => entry,
        }
    }

    pub fn entry(&self) -> (r: &SsdIndexEntry)
        ensures
            *r == self.spec_entry(),
    {
        match self {
            SsdEntryState::Writing(entry) => entry,
            SsdEntryState::Committed(entry) => entry,
        }
    }
}

/// One ring.
pub struct SsdShardRing {
    pub capacity: u64,
    pub head: u64,
    pub tail: u64,
    pub order: VecDeque<KvSsdKey>,
}

/// The rings of all shards with the entries and read pins on them.
pub struct SsdRingBuffer {
    shards: Vec<SsdShardRing>,
    next_shard: usize,
    entries: AssocMap<KvSsdKey, SsdEntryState>,
    read_pins: AssocMap<KvSsdKey, SsdReadPinInfo>,
}

/// The answer to a request for room.
pub enum SsdPreparedWrite {
    /// Room was found; what had to go for it is listed.
    Ready { entry: SsdIndexEntry, evicted: Vec<KvSsdKey> },
    /// The value is stored already.
    Existing,
    /// Room may be found after some write or read has ended.
    BlockedByBusyIo,
}

/// The answer of one shard.
pub enum SsdAllocation {
    Ready { begin: u64, file_offset: u64, evicted: Vec<KvSsdKey> },
    BlockedByBusyIo,
    TooLarge,
}

/// The identities of a list of keys.
pub open spec fn key_ids(keys: Seq<KvSsdKey>) -> Seq<KeyId> {
    Seq::new(keys.len(), |i: int| keys[i]@)
}

/// One ring, as mathematical values.
pub struct ShardModel {
    pub capacity: int,
    pub head: int,
    pub tail: int,
    pub order: Seq<KeyId>,
}

/// What moving a tail does to the order of a shard and to the entries.
pub struct Expiry {
    pub order: Seq<KeyId>,
    pub entries: Map<KeyId, SsdEntryState>,
    pub evicted: Seq<KeyId>,
}

/// The ring buffer, as mathematical values.
#[verifier::ext_equal]
pub struct RingModel {
    pub shards: Seq<ShardModel>,
    pub next_shard: int,
    pub entries: Map<KeyId, SsdEntryState>,
    pub pins: Map<KeyId, SsdReadPinInfo>,
}

/// Drops keys from the front of a shard's order until one is met whose entry begins at or behind
/// `new_tail`. The entries of the dropped keys go, and the committed ones among them are evicted.
pub open spec fn expire(
    order: Seq<KeyId>,
    entries: Map<KeyId, SsdEntryState>,
    new_tail: int,
) -> Expiry
    decreases order.len(),
{
    if order.len() == 0 {
        Expiry { order, entries, evicted: Seq::empty() }
    } else {
        let k = order[0];
        if entries.contains_key(k) && entries[k].spec_entry().begin >= new_tail {
            Expiry { order, entries, evicted: Seq::empty() }
        } else {
            let rest = expire(order.drop_first(), entries.remove(k), new_tail);
            if entries.contains_key(k) && entries[k] is Committed {
                Expiry { evicted: seq![k] + rest.evicted, ..rest }
            } else {
                rest
            }
        }
    }
}

/// The shard `offset` steps after `next` in a round over `count` shards.
pub open spec fn round_robin(next: int, offset: int, count: int) -> int {
    (next + offset) % count
}

impl RingModel {
    /// The entry lies at or behind the tail of its shard.
    pub open spec fn offset_valid(self, entry: SsdIndexEntry) -> bool {
        entry.shard_id < self.shards.len() && entry.begin >= self.shards[entry.shard_id as int].tail
    }

    /// The key has its place on a shard: its write is under way, or it is stored.
    pub open spec fn live(self, k: KeyId) -> bool {
        self.entries.contains_key(k) && self.offset_valid(self.entries[k].spec_entry())
    }

    /// Every live value lies within its shard, and no two of them share a byte.
    pub open spec fn live_values_apart(self) -> bool {
        &&& forall|k: KeyId| #[trigger]
            self.live(k) ==> {
                let e = self.entries[k].spec_entry();
                e.file_offset + e.aligned_len <= self.shards[e.shard_id as int].capacity
            }
        &&& forall|k: KeyId, q: KeyId|
            k != q && #[trigger] self.live(k) && #[trigger] self.live(q)
                ==> self.entries[k].spec_entry().file_apart(self.entries[q].spec_entry())
    }

    /// The committed location of a key that may be read.
    pub open spec fn readable(self, k: KeyId) -> Option<SsdIndexEntry> {
        if self.entries.contains_key(k) {
            match self.entries[k] {
                SsdEntryState::Committed(entry) if self.offset_valid(entry) => Some(entry),
                _ => None,
            }
        } else {
            None
        }
    }

    /// A write or a read is under way before `new_tail`.
    pub open spec fn busy_before(self, shard: int, new_tail: int) -> bool {
        &&& new_tail > self.shards[shard].tail
        &&& {
            ||| exists|k: KeyId| #[trigger]
                self.entries.contains_key(k) && self.writing_before(k, shard, new_tail)
            ||| exists|k: KeyId| #[trigger]
                self.pins.contains_key(k) && self.pinned_before(k, shard, new_tail)
        }
    }

    pub open spec fn writing_before(self, k: KeyId, shard: int, new_tail: int) -> bool {
        match self.entries[k] {
            SsdEntryState::Writing(entry) => entry.shard_id == shard && entry.begin < new_tail,
            SsdEntryState::Committed(_) => false,
        }
    }

    pub open spec fn pinned_before(self, k: KeyId, shard: int, new_tail: int) -> bool {
        self.pins[k].entry.shard_id == shard && self.pins[k].entry.begin < new_tail
    }

    /// Where `size` bytes go that must not wrap around the end of the file.
    pub open spec fn place_begin(self, shard: int, size: int) -> int {
        let ring = self.shards[shard];
        let until_end = ring.capacity - ring.head % ring.capacity;
        if size > until_end {
            ring.head + until_end
        } else {
            ring.head
        }
    }

    /// The tail that leaves no more than the capacity behind the head.
    pub open spec fn place_tail(self, shard: int, size: int) -> int {
        let new_head = self.place_begin(shard, size) + size;
        if new_head > self.shards[shard].capacity {
            new_head - self.shards[shard].capacity
        } else {
            0
        }
    }

    /// `size` bytes fit into the shard, and its positions stay within 64 bits.
    pub open spec fn fits(self, shard: int, size: int) -> bool {
        &&& 0 < self.shards[shard].capacity
        &&& size <= self.shards[shard].capacity
        &&& self.place_begin(shard, size) + size <= u64::MAX
    }

    /// Room for `size` bytes would run over a write or a read under way.
    pub open spec fn blocked(self, shard: int, size: int) -> bool {
        self.busy_before(shard, self.place_tail(shard, size))
    }

    /// The ring buffer after the tail of a shard has moved.
    pub open spec fn advance_tail(self, shard: int, new_tail: int) -> RingModel {
        let ring = self.shards[shard];
        if new_tail <= ring.tail {
            self
        } else {
            let gone = expire(ring.order, self.entries, new_tail);
            RingModel {
                shards: self.shards.update(
                    shard,
                    ShardModel { tail: new_tail, order: gone.order, ..ring },
                ),
                entries: gone.entries,
                ..self
            }
        }
    }

    /// The keys that moving the tail evicts.
    pub open spec fn evicted_by(self, shard: int, new_tail: int) -> Seq<KeyId> {
        if new_tail <= self.shards[shard].tail {
            Seq::empty()
        } else {
            expire(self.shards[shard].order, self.entries, new_tail).evicted
        }
    }

    /// The ring buffer after `size` bytes were taken from a shard.
    pub open spec fn allocate(self, shard: int, size: int) -> RingModel {
        let new_head = self.place_begin(shard, size) + size;
        let moved = RingModel {
            shards: self.shards.update(shard, ShardModel { head: new_head, ..self.shards[shard] }),
            ..self
        };
        moved.advance_tail(shard, self.place_tail(shard, size))
    }

    /// The first shard of the round at which the search for room ends: an allowed one that has
    /// room, or that cannot take the value at all.
    pub open spec fn first_stop(self, allowed: Seq<usize>, size: int, offset: int) -> Option<int>
        decreases self.shards.len() - offset,
    {
        if offset >= self.shards.len() {
            None
        } else {
            let shard = round_robin(self.next_shard, offset, self.shards.len() as int);
            if allowed.contains(shard as usize) && (!self.fits(shard, size) || !self.blocked(
                shard,
                size,
            )) {
                Some(shard)
            } else {
                self.first_stop(allowed, size, offset + 1)
            }
        }
    }

    /// `c` is the largest capacity of an allowed shard that exists.
    pub open spec fn is_max_capacity(self, allowed: Seq<usize>, c: int) -> bool {
        &&& exists|s: int|
            0 <= s < self.shards.len() && #[trigger] self.shards[s].capacity == c
                && allowed.contains(s as usize)
        &&& forall|s: int|
            0 <= s < self.shards.len() && allowed.contains(s as usize) ==> (
            #[trigger] self.shards[s]).capacity <= c
    }

    /// One of the allowed shards exists.
    pub open spec fn some_allowed(self, allowed: Seq<usize>) -> bool {
        exists|s: int| 0 <= s < self.shards.len() && #[trigger] allowed.contains(s as usize)
    }

    /// The entry that a value of `len` bytes gets in a shard.
    pub open spec fn placed_entry(self, shard: int, len: u64) -> SsdIndexEntry {
        let size = aligned_up(len as int, SSD_ALIGNMENT_BYTES as int);
        let begin = self.place_begin(shard, size);
        SsdIndexEntry {
            shard_id: shard as usize,
            begin: begin as u64,
            len,
            aligned_len: size as u64,
            file_offset: (begin % self.shards[shard].capacity) as u64,
        }
    }

    /// The ring buffer after a value was given room in a shard.
    pub open spec fn place(self, k: KeyId, shard: int, len: u64) -> RingModel {
        let size = aligned_up(len as int, SSD_ALIGNMENT_BYTES as int);
        let next = self.allocate(shard, size);
        RingModel {
            shards: next.shards.update(
                shard,
                ShardModel { order: next.shards[shard].order.push(k), ..next.shards[shard] },
            ),
            next_shard: (shard + 1) % (self.shards.len() as int),
            entries: next.entries.insert(
                k,
                SsdEntryState::Writing(self.placed_entry(shard, len)),
            ),
            pins: self.pins,
        }
    }
}

impl RingModel {
    /// A ring whose positions are consistent.
    pub open spec fn shard_inv(self, s: int) -> bool {
        let ring = self.shards[s];
        &&& 0 <= ring.capacity <= u64::MAX
        &&& 0 <= ring.tail <= ring.head <= ring.tail + ring.capacity
        &&& ring.head <= u64::MAX
        &&& ring.capacity % SSD_ALIGNMENT_BYTES as int == 0 ==> ring.head
            % SSD_ALIGNMENT_BYTES as int == 0
    }

    /// An entry that lies before the head of its ring and does not wrap around the file's end.
    pub open spec fn entry_inv(self, entry: SsdIndexEntry) -> bool {
        let ring = self.shards[entry.shard_id as int];
        &&& entry.shard_id < self.shards.len()
        &&& 0 < ring.capacity
        &&& entry.end() <= ring.head
        &&& entry.file_offset == entry.begin as int % ring.capacity
        &&& entry.file_offset + entry.aligned_len <= ring.capacity
        &&& entry.aligned_len == aligned_up(entry.len as int, SSD_ALIGNMENT_BYTES as int)
        &&& ring.capacity % SSD_ALIGNMENT_BYTES as int == 0 ==> entry.begin
            % SSD_ALIGNMENT_BYTES == 0 && entry.file_offset % SSD_ALIGNMENT_BYTES == 0
    }

    /// Every write under way is behind the tail.
    pub open spec fn writes_protected(self) -> bool {
        forall|k: KeyId| #[trigger]
            self.entries.contains_key(k) && self.entries[k] is Writing ==> self.offset_valid(
                self.entries[k].spec_entry(),
            )
    }

    /// Every pinned location is behind the tail, and at least one reader holds it.
    pub open spec fn pins_protected(self) -> bool {
        forall|k: KeyId| #[trigger]
            self.pins.contains_key(k) ==> self.pins[k].count > 0 && self.entry_inv(
                self.pins[k].entry,
            ) && self.offset_valid(self.pins[k].entry)
    }

    /// Two keys never share a logical position.
    pub open spec fn entries_apart(self) -> bool {
        forall|k: KeyId, q: KeyId|
            #![trigger self.entries.contains_key(k), self.entries.contains_key(q)]
            self.entries.contains_key(k) && self.entries.contains_key(q) && k != q
                ==> self.entries[k].spec_entry().apart(self.entries[q].spec_entry())
    }

    /// A pinned location is that of the key's committed entry, or shares nothing with any entry.
    pub open spec fn pins_apart(self) -> bool {
        forall|k: KeyId, q: KeyId|
            #![trigger self.pins.contains_key(k), self.entries.contains_key(q)]
            self.pins.contains_key(k) && self.entries.contains_key(q) ==> {
                ||| k == q && self.entries[q] == SsdEntryState::Committed(self.pins[k].entry)
                ||| self.pins[k].entry.apart(self.entries[q].spec_entry())
            }
    }

    /// What every operation keeps.
    pub open spec fn inv(self) -> bool {
        &&& self.shards.len() > 0
        &&& 0 <= self.next_shard < self.shards.len()
        &&& forall|s: int| 0 <= s < self.shards.len() ==> #[trigger] self.shard_inv(s)
        &&& forall|k: KeyId| #[trigger]
            self.entries.contains_key(k) ==> self.entry_inv(self.entries[k].spec_entry())
        &&& self.writes_protected()
        &&& self.pins_protected()
        &&& self.entries_apart()
        &&& self.pins_apart()
    }
}

/// Moving a tail only drops entries that begin before it, and evicts only committed ones that it
/// drops.
pub(crate) proof fn lemma_expire(order: Seq<KeyId>, entries: Map<KeyId, SsdEntryState>, new_tail: int)
    ensures
        ({
            let gone = expire(order, entries, new_tail);
            &&& forall|k: KeyId| #[trigger]
                gone.entries.contains_key(k) ==> entries.contains_key(k) && gone.entries[k]
                    == entries[k]
            &&& forall|k: KeyId| #[trigger]
                entries.contains_key(k) && !gone.entries.contains_key(k)
                    ==> entries[k].spec_entry().begin < new_tail
            &&& forall|i: int|
                0 <= i < gone.evicted.len() ==> {
                    let k = #[trigger] gone.evicted[i];
                    &&& entries.contains_key(k)
                    &&& !gone.entries.contains_key(k)
                    &&& entries[k] is Committed
                }
            &&& forall|k: KeyId| #[trigger]
                entries.contains_key(k) && !gone.entries.contains_key(k) && entries[k] is Committed
                    ==> gone.evicted.contains(k)
        }),
    decreases order.len(),
{
    if order.len() > 0 {
        let k0 = order[0];
        if !(entries.contains_key(k0) && entries[k0].spec_entry().begin >= new_tail) {
            let less = entries.remove(k0);
            lemma_expire(order.drop_first(), less, new_tail);
            let rest = expire(order.drop_first(), less, new_tail);
            let gone = expire(order, entries, new_tail);
            assert forall|k: KeyId| #[trigger]
                gone.entries.contains_key(k) implies entries.contains_key(k) && gone.entries[k]
                == entries[k] by {
                assert(less.contains_key(k));
            }
            assert forall|k: KeyId| #[trigger]
                entries.contains_key(k) && !gone.entries.contains_key(
                    k,
                ) implies entries[k].spec_entry().begin < new_tail by {
                if k != k0 {
                    assert(less.contains_key(k));
                }
            }
            assert forall|i: int| 0 <= i < gone.evicted.len() implies {
                let k = #[trigger] gone.evicted[i];
                &&& entries.contains_key(k)
                &&& !gone.entries.contains_key(k)
                &&& entries[k] is Committed
            } by {
                if entries.contains_key(k0) && entries[k0] is Committed {
                    if i > 0 {
                        assert(gone.evicted[i] == rest.evicted[i - 1]);
                        assert(less.contains_key(rest.evicted[i - 1]));
                    } else {
                        if gone.entries.contains_key(k0) {
                            assert(less.contains_key(k0));
                        }
                    }
                } else {
                    assert(less.contains_key(rest.evicted[i]));
                }
            }
            assert forall|k: KeyId| #[trigger]
                entries.contains_key(k) && !gone.entries.contains_key(k)
                    && entries[k] is Committed implies gone.evicted.contains(k) by {
                if k == k0 {
                    assert(gone.evicted[0] == k0);
                } else {
                    assert(less.contains_key(k));
                    assert(rest.evicted.contains(k));
                    let i = choose|i: int| 0 <= i < rest.evicted.len() && rest.evicted[i] == k;
                    if entries.contains_key(k0) && entries[k0] is Committed {
                        assert(gone.evicted[i + 1] == k);
                    } else {
                        assert(gone.evicted[i] == k);
                    }
                }
            }
        }
    }
}

/// A place chosen at the head does not wrap around the end of the file.
pub(crate) proof fn lemma_place_begin(m: RingModel, s: int, size: int)
    requires
        m.inv(),
        0 <= s < m.shards.len(),
        0 <= size,
        m.fits(s, size),
        size % SSD_ALIGNMENT_BYTES as int == 0,
    ensures
        m.place_begin(s, size) >= m.shards[s].head,
        m.place_begin(s, size) % m.shards[s].capacity + size <= m.shards[s].capacity,
        0 <= m.place_begin(s, size) % m.shards[s].capacity < m.shards[s].capacity,
        m.shards[s].capacity % SSD_ALIGNMENT_BYTES as int == 0 ==> {
            &&& m.place_begin(s, size) % SSD_ALIGNMENT_BYTES as int == 0
            &&& (m.place_begin(s, size) % m.shards[s].capacity) % SSD_ALIGNMENT_BYTES as int == 0
            &&& (m.place_begin(s, size) + size) % SSD_ALIGNMENT_BYTES as int == 0
        },
{
    let cap = m.shards[s].capacity;
    let head = m.shards[s].head;
    assert(m.shard_inv(s));
    let phys = head % cap;
    let until_end = cap - phys;
    let begin = m.place_begin(s, size);
    lemma_mod_bound(head, cap);
    lemma_mod_bound(begin, cap);
    lemma_fundamental_div_mod(head, cap);
    if size > until_end {
        let q = head / cap;
        assert(begin == (q + 1) * cap) by (nonlinear_arith)
            requires
                begin == head + cap - phys,
                head == cap * q + phys,
        ;
        lemma_mod_multiples_basic(q + 1, cap);
        assert(begin % cap == 0);
    }
    if cap % SSD_ALIGNMENT_BYTES as int == 0 {
        let a = SSD_ALIGNMENT_BYTES as int;
        let c = cap / a;
        lemma_fundamental_div_mod(cap, a);
        lemma_fundamental_div_mod(begin, cap);
        let q = begin / cap;
        if size > until_end {
            let q1 = head / cap + 1;
            assert(begin == (q1 * c) * a) by (nonlinear_arith)
                requires
                    begin == q1 * cap,
                    cap == a * c,
            ;
            lemma_mod_multiples_basic(q1 * c, a);
        }
        let b = begin / a;
        lemma_fundamental_div_mod(begin, a);
        let off = begin % cap;
        assert(off == (b - c * q) * a) by (nonlinear_arith)
            requires
                begin == cap * q + off,
                cap == a * c,
                begin == a * b + 0,
        ;
        lemma_mod_multiples_basic(b - c * q, a);
        lemma_add_mod_noop(begin, size, a);
    }
}

/// Taking room in a shard keeps the invariant.
pub(crate) proof fn lemma_allocate_inv(m: RingModel, s: int, size: int)
    requires
        m.inv(),
        0 <= s < m.shards.len(),
        0 <= size,
        size % SSD_ALIGNMENT_BYTES as int == 0,
        m.fits(s, size),
        !m.blocked(s, size),
    ensures
        m.allocate(s, size).inv(),
        m.allocate(s, size).shards.len() == m.shards.len(),
        m.allocate(s, size).pins == m.pins,
        m.allocate(s, size).next_shard == m.next_shard,
        m.allocate(s, size).shards[s].capacity == m.shards[s].capacity,
        m.allocate(s, size).shards[s].head == m.place_begin(s, size) + size,
        m.allocate(s, size).shards[s].tail <= m.place_begin(s, size),
        forall|k: KeyId| #[trigger]
            m.allocate(s, size).entries.contains_key(k) ==> m.entries.contains_key(k)
                && m.allocate(s, size).entries[k] == m.entries[k],
{
    let n = m.allocate(s, size);
    let t = m.place_tail(s, size);
    let begin = m.place_begin(s, size);
    lemma_place_begin(m, s, size);
    assert(m.shard_inv(s));
    lemma_expire(m.shards[s].order, m.entries, t);
    assert forall|r: int| 0 <= r < n.shards.len() implies #[trigger] n.shard_inv(r) by {
        assert(m.shard_inv(r));
    }
    assert forall|k: KeyId| #[trigger] n.entries.contains_key(k) implies n.entry_inv(
        n.entries[k].spec_entry(),
    ) by {
        assert(m.entries.contains_key(k));
        assert(m.entry_inv(m.entries[k].spec_entry()));
    }
    assert forall|k: KeyId| #[trigger]
        n.entries.contains_key(k) && n.entries[k] is Writing implies n.offset_valid(
        n.entries[k].spec_entry(),
    ) by {
        assert(m.entries.contains_key(k));
        assert(m.offset_valid(m.entries[k].spec_entry()));
        assert(!(t > m.shards[s].tail && m.writing_before(k, s, t)));
    }
    assert forall|k: KeyId| #[trigger] n.pins.contains_key(k) implies n.pins[k].count > 0
        && n.entry_inv(n.pins[k].entry) && n.offset_valid(n.pins[k].entry) by {
        assert(m.pins.contains_key(k));
        assert(m.entry_inv(m.pins[k].entry));
        assert(!(t > m.shards[s].tail && m.pinned_before(k, s, t)));
    }
    assert forall|k: KeyId, q: KeyId|
        #![trigger n.entries.contains_key(k), n.entries.contains_key(q)]
        n.entries.contains_key(k) && n.entries.contains_key(q) && k
            != q implies n.entries[k].spec_entry().apart(n.entries[q].spec_entry()) by {
        assert(m.entries.contains_key(k));
        assert(m.entries.contains_key(q));
    }
    assert forall|k: KeyId, q: KeyId|
        #![trigger n.pins.contains_key(k), n.entries.contains_key(q)]
        n.pins.contains_key(k) && n.entries.contains_key(q) implies {
        ||| k == q && n.entries[q] == SsdEntryState::Committed(n.pins[k].entry)
        ||| n.pins[k].entry.apart(n.entries[q].spec_entry())
    } by {
        assert(m.pins.contains_key(k));
        assert(m.entries.contains_key(q));
    }
}

/// Giving a new key room keeps the invariant.
pub(crate) proof fn lemma_place_inv(m: RingModel, k0: KeyId, s: int, len: u64)
    requires
        m.inv(),
        0 <= s < m.shards.len(),
        !m.entries.contains_key(k0),
        s <= usize::MAX,
        m.fits(s, aligned_up(len as int, SSD_ALIGNMENT_BYTES as int)),
        !m.blocked(s, aligned_up(len as int, SSD_ALIGNMENT_BYTES as int)),
    ensures
        m.place(k0, s, len).inv(),
{
    let size = aligned_up(len as int, SSD_ALIGNMENT_BYTES as int);
    lemma_aligned_up(len as int, SSD_ALIGNMENT_BYTES as int);
    lemma_place_begin(m, s, size);
    lemma_allocate_inv(m, s, size);
    let a = m.allocate(s, size);
    let n = m.place(k0, s, len);
    let e0 = m.placed_entry(s, len);
    assert(m.shard_inv(s));
    assert(a.shard_inv(s));
    assert(n.entries[k0].spec_entry() == e0);
    lemma_mod_bound(s + 1, m.shards.len() as int);
    assert forall|r: int| 0 <= r < n.shards.len() implies #[trigger] n.shard_inv(r) by {
        assert(a.shard_inv(r));
    }
    assert forall|k: KeyId| #[trigger] n.entries.contains_key(k) implies n.entry_inv(
        n.entries[k].spec_entry(),
    ) by {
        if k != k0 {
            assert(a.entries.contains_key(k));
            assert(a.entry_inv(a.entries[k].spec_entry()));
        }
    }
    assert forall|k: KeyId| #[trigger]
        n.entries.contains_key(k) && n.entries[k] is Writing implies n.offset_valid(
        n.entries[k].spec_entry(),
    ) by {
        if k != k0 {
            assert(a.entries.contains_key(k));
            assert(a.offset_valid(a.entries[k].spec_entry()));
        }
    }
    assert forall|k: KeyId| #[trigger] n.pins.contains_key(k) implies n.pins[k].count > 0
        && n.entry_inv(n.pins[k].entry) && n.offset_valid(n.pins[k].entry) by {
        assert(a.pins.contains_key(k));
        assert(a.entry_inv(a.pins[k].entry));
    }
    assert forall|k: KeyId| #[trigger] a.entries.contains_key(k) implies e0.apart(
        a.entries[k].spec_entry(),
    ) by {
        assert(m.entries.contains_key(k));
        assert(m.entry_inv(m.entries[k].spec_entry()));
    }
    assert forall|k: KeyId, q: KeyId|
        #![trigger n.entries.contains_key(k), n.entries.contains_key(q)]
        n.entries.contains_key(k) && n.entries.contains_key(q) && k
            != q implies n.entries[k].spec_entry().apart(n.entries[q].spec_entry()) by {
        assert(k != k0 ==> a.entries.contains_key(k));
        assert(q != k0 ==> a.entries.contains_key(q));
    }
    assert forall|k: KeyId, q: KeyId|
        #![trigger n.pins.contains_key(k), n.entries.contains_key(q)]
        n.pins.contains_key(k) && n.entries.contains_key(q) implies {
        ||| k == q && n.entries[q] == SsdEntryState::Committed(n.pins[k].entry)
        ||| n.pins[k].entry.apart(n.entries[q].spec_entry())
    } by {
        assert(m.pins.contains_key(k));
        assert(m.entry_inv(m.pins[k].entry));
        assert(a.pins.contains_key(k));
        assert(q != k0 ==> a.entries.contains_key(q));
    }
}

impl SsdShardRing {
    pub open spec fn model(&self) -> ShardModel {
        ShardModel {
            capacity: self.capacity as int,
            head: self.head as int,
            tail: self.tail as int,
            order: key_ids(self.order@),
        }
    }
}

impl View for SsdRingBuffer {
    type V = RingModel;

    closed spec fn view(&self) -> RingModel {
        RingModel {
            shards: Seq::new(self.shards@.len(), |i: int| self.shards@[i].model()),
            next_shard: self.next_shard as int,
            entries: self.entries@,
            pins: self.read_pins@,
        }
    }
}

/// The ring buffer of empty shards.
pub open spec fn empty_ring(capacities: Seq<u64>) -> RingModel {
    RingModel {
        shards: Seq::new(
            capacities.len(),
            |i: int|
                ShardModel {
                    capacity: capacities[i] as int,
                    head: 0,
                    tail: 0,
                    order: Seq::empty(),
                },
        ),
        next_shard: 0,
        entries: Map::empty(),
        pins: Map::empty(),
    }
}

impl SsdRingBuffer {
    /// The representation is consistent, and so is what it stands for.
    pub closed spec fn wf(&self) -> bool {
        &&& self.entries.wf()
        &&& self.read_pins.wf()
        &&& self@.inv()
    }

    pub proof fn lemma_wf(&self)
        requires
            self.wf(),
        ensures
            self@.inv(),
            self@.shards.len() <= usize::MAX,
    {
        assert(self.shards.len() == self.shards@.len());
    }

    /// Empty rings of the given capacities.
    pub fn new(shard_capacities: Vec<u64>) -> (r: Self)
        requires
            shard_capacities@.len() > 0,
        ensures
            r.wf(),
            r@ == empty_ring(shard_capacities@),
    {
        let mut shards: Vec<SsdShardRing> = Vec::new();
        let mut i: usize = 0;
        while i < shard_capacities.len()
            invariant
                i <= shard_capacities@.len(),
                shards@.len() == i,
                forall|j: int|
                    0 <= j < i ==> (#[trigger] shards@[j]).model() == empty_ring(
                        shard_capacities@,
                    ).shards[j],
            decreases shard_capacities@.len() - i,
        {
            let ring = SsdShardRing {
                capacity: shard_capacities[i],
                head: 0,
                tail: 0,
                order: VecDeque::new(),
            };
            assert(key_ids(ring.order@) =~= Seq::<KeyId>::empty());
            shards.push(ring);
            i += 1;
        }
        let r = SsdRingBuffer {
            shards,
            next_shard: 0,
            entries: AssocMap::new(),
            read_pins: AssocMap::new(),
        };
        proof {
            assert(r@.shards =~= empty_ring(shard_capacities@).shards);
            assert forall|s: int| 0 <= s < r@.shards.len() implies #[trigger] r@.shard_inv(s) by {}
        }
        r
    }

    /// Whether no ring comes near the end of the 64-bit positions.
    pub fn has_head_room(&self) -> (r: bool)
        ensures
            r == forall|s: int|
                0 <= s < self@.shards.len() ==> (#[trigger] self@.shards[s]).head + 2
                    * self@.shards[s].capacity <= u64::MAX,
    {
        let mut i: usize = 0;
        while i < self.shards.len()
            invariant
                i <= self.shards@.len(),
                self@.shards.len() == self.shards@.len(),
                forall|s: int|
                    0 <= s < i ==> (#[trigger] self@.shards[s]).head + 2 * self@.shards[s].capacity
                        <= u64::MAX,
            decreases self.shards@.len() - i,
        {
            let shard = &self.shards[i];
            assert(self@.shards[i as int].head == shard.head);
            assert(self@.shards[i as int].capacity == shard.capacity);
            let half: u64 = (u64::MAX - shard.head) / 2;
            if shard.capacity > half {
                return false;
            }
            i += 1;
        }
        true
    }

    /// The number of times that a value is pinned.
    pub fn pin_count(&self, key: &KvSsdKey) -> (r: usize)
        requires
            self.wf(),
        ensures
            r == if self@.pins.contains_key(key@) {
                self@.pins[key@].count
            } else {
                0
            },
    {
        match self.read_pins.get(key) {
            Some(pin) => pin.count,
            None => 0,
        }
    }

    pub fn is_offset_valid(&self, entry: &SsdIndexEntry) -> (r: bool)
        ensures
            r == self@.offset_valid(*entry),
    {
        entry.shard_id < self.shards.len() && entry.begin >= self.shards[entry.shard_id].tail
    }

    /// The location of a committed value that has not been overtaken by the tail.
    pub fn get(&self, key: &KvSsdKey) -> (r: Option<SsdIndexEntry>)
        requires
            self.wf(),
        ensures
            r == self@.readable(key@),
    {
        match self.entries.get(key) {
            Some(SsdEntryState::Committed(entry)) => {
                if self.is_offset_valid(entry) {
                    Some(*entry)
                } else {
                    None
                }
            },
            _ => None,
        }
    }

    /// Looks a value up and keeps its location from being overwritten until it is unpinned.
    pub fn pin_read(&mut self, key: &KvSsdKey) -> (r: Option<SsdIndexEntry>)
        requires
            old(self).wf(),
            old(self)@.pins.contains_key(key@) ==> old(self)@.pins[key@].count < usize::MAX,
        ensures
            final(self).wf(),
            r == old(self)@.readable(key@),
            r is None ==> final(self)@ == old(self)@,
            r matches Some(entry) ==> final(self)@ == old(self)@.pin(key@, entry),
    {
        let entry = match self.get(key) {
            Some(entry) => entry,
            None => {
                return None;
            },
        };
        let ghost before = self@;
        let pin = match self.read_pins.get(key) {
            Some(pin) => SsdReadPinInfo { entry: pin.entry, count: pin.count + 1 },
            None => SsdReadPinInfo { entry, count: 1 },
        };
        self.read_pins.insert(key.dup(), pin);
        proof {
            lemma_pin_inv(before, key@, entry);
            assert(self@ == before.pin(key@, entry));
        }
        Some(entry)
    }

    /// Takes one reader off a pinned location.
    pub fn unpin_read(&mut self, key: &KvSsdKey)
        requires
            old(self).wf(),
            old(self)@.pins.contains_key(key@),
        ensures
            final(self).wf(),
            final(self)@ == old(self)@.unpin(key@),
    {
        let ghost before = self@;
        match self.read_pins.get(key) {
            Some(pin) => {
                if pin.count > 1 {
                    let next = SsdReadPinInfo { entry: pin.entry, count: pin.count - 1 };
                    self.read_pins.insert(key.dup(), next);
                } else {
                    self.read_pins.remove(key);
                }
                proof {
                    lemma_unpin_inv(before, key@);
                    assert(self@ == before.unpin(key@));
                }
            },
            None => {},
        }
    }

    /// Ends a write: it becomes readable if it succeeded and its room was not taken away.
    pub fn commit(&mut self, key: &KvSsdKey, success: bool) -> (r: bool)
        requires
            old(self).wf(),
        ensures
            final(self).wf(),
            r == old(self)@.commits(key@, success),
            final(self)@ == old(self)@.commit(key@, success),
    {
        let ghost before = self@;
        let entry = match self.entries.get(key) {
            None => {
                return false;
            },
            Some(SsdEntryState::Committed(_)) => {
                return true;
            },
            Some(SsdEntryState::Writing(entry)) => *entry,
        };
        proof {
            lemma_commit_inv(before, key@, success);
        }
        if !self.is_offset_valid(&entry) || !success {
            self.entries.remove(key);
            assert(self@ == before.commit(key@, success));
            return false;
        }
        self.entries.insert(key.dup(), SsdEntryState::Committed(entry));
        assert(self@ == before.commit(key@, success));
        true
    }

    /// Forgets a value.
    pub fn remove(&mut self, key: &KvSsdKey)
        requires
            old(self).wf(),
        ensures
            final(self).wf(),
            final(self)@ == old(self)@.forget(key@),
    {
        let ghost before = self@;
        self.entries.remove(key);
        proof {
            lemma_forget_inv(before, key@);
            assert(self@ == before.forget(key@));
        }
    }

    pub fn has_busy_entries_before(&self, shard_id: usize, new_tail: u64) -> (r: bool)
        requires
            self.wf(),
            shard_id < self@.shards.len(),
        ensures
            r == self@.busy_before(shard_id as int, new_tail as int),
    {
        if new_tail <= self.shards[shard_id].tail {
            return false;
        }
        let mut i: usize = 0;
        while i < self.entries.len()
            invariant
                self.wf(),
                i <= self.entries.rows().len(),
                forall|j: int|
                    0 <= j < i ==> !self@.writing_before(
                        (#[trigger] self.entries.rows()[j]).0@,
                        shard_id as int,
                        new_tail as int,
                    ),
            decreases self.entries.rows().len() - i,
        {
            let row = self.entries.row(i);
            match row.1 {
                SsdEntryState::Writing(entry) => {
                    if entry.shard_id == shard_id && entry.begin < new_tail {
                        assert(self@.entries.contains_key(row.0@));
                        assert(self@.writing_before(row.0@, shard_id as int, new_tail as int));
                        return true;
                    }
                },
                SsdEntryState::Committed(_) => {},
            }
            i += 1;
        }
        let mut p: usize = 0;
        while p < self.read_pins.len()
            invariant
                self.wf(),
                p <= self.read_pins.rows().len(),
                forall|j: int|
                    0 <= j < p ==> !self@.pinned_before(
                        (#[trigger] self.read_pins.rows()[j]).0@,
                        shard_id as int,
                        new_tail as int,
                    ),
            decreases self.read_pins.rows().len() - p,
        {
            let row = self.read_pins.row(p);
            if row.1.entry.shard_id == shard_id && row.1.entry.begin < new_tail {
                assert(self@.pins.contains_key(row.0@));
                assert(self@.pinned_before(row.0@, shard_id as int, new_tail as int));
                return true;
            }
            p += 1;
        }
        proof {
            self.entries.lemma_rows();
            self.read_pins.lemma_rows();
            assert forall|k: KeyId| #[trigger]
                self@.entries.contains_key(k) implies !self@.writing_before(
                k,
                shard_id as int,
                new_tail as int,
            ) by {
                let j = lemma_map_has_row(self.entries.rows(), k);
            }
            assert forall|k: KeyId| #[trigger]
                self@.pins.contains_key(k) implies !self@.pinned_before(
                k,
                shard_id as int,
                new_tail as int,
            ) by {
                let j = lemma_map_has_row(self.read_pins.rows(), k);
            }
        }
        false
    }
}

impl RingModel {
    /// The ring buffer after one more reader took hold of a location.
    pub open spec fn pin(self, k: KeyId, entry: SsdIndexEntry) -> RingModel {
        let pin = if self.pins.contains_key(k) {
            SsdReadPinInfo { entry: self.pins[k].entry, count: (self.pins[k].count + 1) as usize }
        } else {
            SsdReadPinInfo { entry, count: 1 }
        };
        RingModel { pins: self.pins.insert(k, pin), ..self }
    }

    /// The ring buffer after one reader let go of a location.
    pub open spec fn unpin(self, k: KeyId) -> RingModel {
        if self.pins[k].count > 1 {
            let pin = SsdReadPinInfo {
                entry: self.pins[k].entry,
                count: (self.pins[k].count - 1) as usize,
            };
            RingModel { pins: self.pins.insert(k, pin), ..self }
        } else {
            RingModel { pins: self.pins.remove(k), ..self }
        }
    }

    /// Whether a value is readable once its write has ended.
    pub open spec fn commits(self, k: KeyId, success: bool) -> bool {
        self.entries.contains_key(k) && match self.entries[k] {
            SsdEntryState::Committed(_) => true,
            SsdEntryState::Writing(entry) => success && self.offset_valid(entry),
        }
    }

    /// The ring buffer after a write has ended.
    pub open spec fn commit(self, k: KeyId, success: bool) -> RingModel {
        if self.entries.contains_key(k) && self.entries[k] is Writing {
            let entry = self.entries[k].spec_entry();
            if success && self.offset_valid(entry) {
                RingModel {
                    entries: self.entries.insert(k, SsdEntryState::Committed(entry)),
                    ..self
                }
            } else {
                self.forget(k)
            }
        } else {
            self
        }
    }

    /// The ring buffer without the entry of a key.
    pub open spec fn forget(self, k: KeyId) -> RingModel {
        RingModel { entries: self.entries.remove(k), ..self }
    }
}

pub(crate) proof fn lemma_forget_inv(m: RingModel, k0: KeyId)
    requires
        m.inv(),
    ensures
        m.forget(k0).inv(),
{
    let n = m.forget(k0);
    assert forall|s: int| 0 <= s < n.shards.len() implies #[trigger] n.shard_inv(s) by {
        assert(m.shard_inv(s));
    }
    assert forall|k: KeyId| #[trigger] n.entries.contains_key(k) implies m.entries.contains_key(k)
        && n.entry_inv(n.entries[k].spec_entry()) by {
        assert(m.entries.contains_key(k));
    }
    assert forall|k: KeyId| #[trigger] n.pins.contains_key(k) implies m.pins.contains_key(k)
        && n.entry_inv(n.pins[k].entry) by {
        assert(m.pins.contains_key(k));
    }
}

pub(crate) proof fn lemma_commit_inv(m: RingModel, k0: KeyId, success: bool)
    requires
        m.inv(),
    ensures
        m.commit(k0, success).inv(),
{
    lemma_forget_inv(m, k0);
    let n = m.commit(k0, success);
    assert forall|s: int| 0 <= s < n.shards.len() implies #[trigger] n.shard_inv(s) by {
        assert(m.shard_inv(s));
    }
    assert forall|k: KeyId| #[trigger] n.entries.contains_key(k) implies m.entries.contains_key(k)
        && n.entry_inv(n.entries[k].spec_entry()) by {
        assert(m.entries.contains_key(k));
        assert(m.entry_inv(m.entries[k].spec_entry()));
    }
    assert forall|k: KeyId| #[trigger] n.pins.contains_key(k) implies m.pins.contains_key(k)
        && n.entry_inv(n.pins[k].entry) by {
        assert(m.pins.contains_key(k));
    }
}

pub(crate) proof fn lemma_pin_inv(m: RingModel, k0: KeyId, entry: SsdIndexEntry)
    requires
        m.inv(),
        m.readable(k0) == Some(entry),
        m.pins.contains_key(k0) ==> m.pins[k0].count < usize::MAX,
    ensures
        m.pin(k0, entry).inv(),
{
    let n = m.pin(k0, entry);
    assert forall|s: int| 0 <= s < n.shards.len() implies #[trigger] n.shard_inv(s) by {
        assert(m.shard_inv(s));
    }
    assert forall|k: KeyId| #[trigger] n.entries.contains_key(k) implies m.entries.contains_key(k)
        && n.entry_inv(n.entries[k].spec_entry()) by {
        assert(m.entries.contains_key(k));
    }
    assert(m.entries.contains_key(k0));
    assert forall|k: KeyId| #[trigger] n.pins.contains_key(k) implies n.pins[k].count > 0
        && n.entry_inv(n.pins[k].entry) && n.offset_valid(n.pins[k].entry) by {
        if m.pins.contains_key(k) {
            assert(m.entry_inv(m.pins[k].entry));
        } else {
            assert(m.entry_inv(m.entries[k0].spec_entry()));
        }
    }
    assert forall|k: KeyId, q: KeyId|
        #![trigger n.pins.contains_key(k), n.entries.contains_key(q)]
        n.pins.contains_key(k) && n.entries.contains_key(q) implies {
        ||| k == q && n.entries[q] == SsdEntryState::Committed(n.pins[k].entry)
        ||| n.pins[k].entry.apart(n.entries[q].spec_entry())
    } by {
        assert(m.entries.contains_key(q));
        if m.pins.contains_key(k) {
        } else {
            assert(k == k0);
        }
    }
}

pub(crate) proof fn lemma_unpin_inv(m: RingModel, k0: KeyId)
    requires
        m.inv(),
        m.pins.contains_key(k0),
    ensures
        m.unpin(k0).inv(),
{
    let n = m.unpin(k0);
    assert forall|s: int| 0 <= s < n.shards.len() implies #[trigger] n.shard_inv(s) by {
        assert(m.shard_inv(s));
    }
    assert forall|k: KeyId| #[trigger] n.entries.contains_key(k) implies m.entries.contains_key(k)
        && n.entry_inv(n.entries[k].spec_entry()) by {
        assert(m.entries.contains_key(k));
    }
    assert forall|k: KeyId| #[trigger] n.pins.contains_key(k) implies n.pins[k].count > 0
        && n.entry_inv(n.pins[k].entry) && n.offset_valid(n.pins[k].entry) by {
        assert(m.pins.contains_key(k));
        assert(m.entry_inv(m.pins[k].entry));
    }
    assert forall|k: KeyId, q: KeyId|
        #![trigger n.pins.contains_key(k), n.entries.contains_key(q)]
        n.pins.contains_key(k) && n.entries.contains_key(q) implies {
        ||| k == q && n.entries[q] == SsdEntryState::Committed(n.pins[k].entry)
        ||| n.pins[k].entry.apart(n.entries[q].spec_entry())
    } by {
        assert(m.pins.contains_key(k));
        assert(m.entries.contains_key(q));
    }
}

impl SsdRingBuffer {
    /// Moves the tail of a shard forward and returns the committed keys that go.
    fn advance_tail(&mut self, shard_id: usize, new_tail: u64) -> (evicted: Vec<KvSsdKey>)
        requires
            old(self).entries.wf(),
            old(self).read_pins.wf(),
            shard_id < old(self)@.shards.len(),
        ensures
            final(self).entries.wf(),
            final(self).read_pins.wf(),
            final(self)@ == old(self)@.advance_tail(shard_id as int, new_tail as int),
            key_ids(evicted@) == old(self)@.evicted_by(shard_id as int, new_tail as int),
    {
        let mut evicted: Vec<KvSsdKey> = Vec::new();
        assert(key_ids(evicted@) =~= Seq::<KeyId>::empty());
        if new_tail <= self.shards[shard_id].tail {
            return evicted;
        }
        let ghost before = *self;
        let ghost s = shard_id as int;
        let ghost whole = expire(before@.shards[s].order, before@.entries, new_tail as int);
        self.shards[shard_id].tail = new_tail;
        loop
            invariant
                self.entries.wf(),
                self.read_pins.wf(),
                shard_id < self.shards@.len(),
                s == shard_id,
                self.shards@.len() == before.shards@.len(),
                forall|i: int|
                    0 <= i < self.shards@.len() && i != s ==> self.shards@[i]
                        == #[trigger] before.shards@[i],
                self.shards@[s].capacity == before.shards@[s].capacity,
                self.shards@[s].head == before.shards@[s].head,
                self.shards@[s].tail == new_tail,
                self.next_shard == before.next_shard,
                self.read_pins == before.read_pins,
                ({
                    let rest = expire(
                        key_ids(self.shards@[s].order@),
                        self.entries@,
                        new_tail as int,
                    );
                    &&& whole.order == rest.order
                    &&& whole.entries == rest.entries
                    &&& whole.evicted == key_ids(evicted@) + rest.evicted
                }),
            ensures
                self.entries@ == whole.entries,
                key_ids(self.shards@[s].order@) == whole.order,
                key_ids(evicted@) == whole.evicted,
            decreases self.shards@[s].order@.len(),
        {
            let ghost order = key_ids(self.shards@[s].order@);
            let ghost entries = self.entries@;
            let ghost so_far = key_ids(evicted@);
            if self.shards[shard_id].order.len() == 0 {
                assert(key_ids(evicted@) + Seq::<KeyId>::empty() =~= key_ids(evicted@));
                break;
            }
            let kept = match self.entries.get(&self.shards[shard_id].order[0]) {
                Some(state) => state.entry().begin >= new_tail,
                None => false,
            };
            assert(order[0] == self.shards@[s].order@[0]@);
            if kept {
                assert(key_ids(evicted@) + Seq::<KeyId>::empty() =~= key_ids(evicted@));
                break;
            }
            let popped = self.shards[shard_id].order.pop_front();
            assert(key_ids(self.shards@[s].order@) =~= order.drop_first());
            match popped {
                Some(key) => {
                    let gone = self.entries.remove(&key);
                    match gone {
                        Some(SsdEntryState::Committed(_)) => {
                            proof {
                                assert(key_ids(evicted@.push(key)) =~= so_far.push(key@));
                                let rest = expire(
                                    order.drop_first(),
                                    entries.remove(key@),
                                    new_tail as int,
                                );
                                assert(so_far + (seq![key@] + rest.evicted) =~= so_far.push(key@)
                                    + rest.evicted);
                            }
                            evicted.push(key);
                        },
                        _ => {},
                    }
                },
                None => {},
            }
        }
        proof {
            assert(self@.shards =~= before@.advance_tail(s, new_tail as int).shards);
        }
        evicted
    }

    /// Takes `size` bytes that lie in one piece from the head of a shard.
    fn allocate_contiguous(&mut self, shard_id: usize, size: u64) -> (r: SsdAllocation)
        requires
            old(self).wf(),
            shard_id < old(self)@.shards.len(),
            size % SSD_ALIGNMENT_BYTES == 0,
            size <= old(self)@.shards[shard_id as int].capacity ==> old(self)@.fits(
                shard_id as int,
                size as int,
            ),
        ensures
            final(self).wf(),
            match r {
                SsdAllocation::TooLarge => size > old(self)@.shards[shard_id as int].capacity
                    && final(self)@ == old(self)@,
                SsdAllocation::BlockedByBusyIo => {
                    &&& size <= old(self)@.shards[shard_id as int].capacity
                    &&& old(self)@.blocked(shard_id as int, size as int)
                    &&& final(self)@ == old(self)@
                },
                SsdAllocation::Ready { begin, file_offset, evicted } => {
                    &&& size <= old(self)@.shards[shard_id as int].capacity
                    &&& !old(self)@.blocked(shard_id as int, size as int)
                    &&& final(self)@ == old(self)@.allocate(shard_id as int, size as int)
                    &&& begin == old(self)@.place_begin(shard_id as int, size as int)
                    &&& file_offset == begin as int % old(self)@.shards[shard_id as int].capacity
                    &&& key_ids(evicted@) == old(self)@.evicted_by(
                        shard_id as int,
                        old(self)@.place_tail(shard_id as int, size as int),
                    )
                },
            },
    {
        let ghost before = *self;
        let ghost s = shard_id as int;
        let capacity = self.shards[shard_id].capacity;
        if size > capacity {
            return SsdAllocation::TooLarge;
        }
        proof {
            lemma_place_begin(before@, s, size as int);
            assert(before@.shard_inv(s));
            lemma_mod_bound(before@.shards[s].head, capacity as int);
        }
        let mut head: u64 = self.shards[shard_id].head;
        let phys: u64 = head % capacity;
        let space_until_end: u64 = capacity - phys;
        if size > space_until_end {
            head = head + space_until_end;
        }
        let begin: u64 = head;
        assert(begin == before@.place_begin(s, size as int));
        let new_head: u64 = head + size;
        let new_tail: u64 = new_head.saturating_sub(capacity);
        assert(new_tail == before@.place_tail(s, size as int));
        if self.has_busy_entries_before(shard_id, new_tail) {
            return SsdAllocation::BlockedByBusyIo;
        }
        proof {
            lemma_allocate_inv(before@, s, size as int);
        }
        self.shards[shard_id].head = new_head;
        let ghost moved = *self;
        proof {
            let want = RingModel {
                shards: before@.shards.update(
                    s,
                    ShardModel { head: new_head as int, ..before@.shards[s] },
                ),
                ..before@
            };
            assert(moved@.shards =~= want.shards);
            assert(moved@ == want);
            assert(moved@.evicted_by(s, new_tail as int) == before@.evicted_by(s, new_tail as int));
        }
        let evicted = self.advance_tail(shard_id, new_tail);
        SsdAllocation::Ready { begin, file_offset: begin % capacity, evicted }
    }
}

impl RingModel {
    /// What a request for room is answered when no shard needs to be searched.
    pub open spec fn known_answer(self, k: KeyId, len: u64) -> Result<
        SsdPreparedWrite,
        ArgumentError,
    > {
        match self.entries[k] {
            SsdEntryState::Writing(_) => Ok(SsdPreparedWrite::BlockedByBusyIo),
            SsdEntryState::Committed(entry) => if entry.len == len {
                Ok(SsdPreparedWrite::Existing)
            } else {
                Err(
                    ArgumentError::DuplicateLengthMismatch {
                        existing_len: entry.len,
                        requested_len: len,
                    },
                )
            },
        }
    }

    /// The length of `len` bytes on the SSD.
    pub open spec fn ssd_len(len: u64) -> int {
        aligned_up(len as int, SSD_ALIGNMENT_BYTES as int)
    }

    /// Some allowed shard is large enough for the value.
    pub open spec fn some_large_enough(self, allowed: Seq<usize>, len: u64) -> bool {
        exists|s: int|
            0 <= s < self.shards.len() && allowed.contains(s as usize) && Self::ssd_len(len) <= (
            #[trigger] self.shards[s]).capacity
    }

    /// Where shards are searched for room, one that can take the value is met before one that
    /// cannot.
    pub open spec fn search_is_sound(self, k: KeyId, allowed: Seq<usize>, len: u64) -> bool {
        !self.entries.contains_key(k) && len + SSD_ALIGNMENT_BYTES - 1 <= u64::MAX
            && self.some_large_enough(allowed, len) ==> (self.first_stop(
            allowed,
            Self::ssd_len(len),
            0,
        ) matches Some(s) ==> self.fits(s, Self::ssd_len(len)))
    }

    /// The answer `r` to a request for room, and the ring buffer `next` after it.
    pub open spec fn prepared(
        self,
        k: KeyId,
        len: u64,
        allowed: Seq<usize>,
        r: Result<SsdPreparedWrite, ArgumentError>,
        next: RingModel,
    ) -> bool {
        if allowed.len() == 0 {
            r == Err::<SsdPreparedWrite, ArgumentError>(ArgumentError::DeviceHasNoShards) && next
                == self
        } else if self.entries.contains_key(k) {
            r == self.known_answer(k, len) && next == self
        } else if len + SSD_ALIGNMENT_BYTES - 1 > u64::MAX {
            r == Err::<SsdPreparedWrite, ArgumentError>(
                ArgumentError::AlignmentOverflow { value: len },
            ) && next == self
        } else if !self.some_allowed(allowed) {
            r == Err::<SsdPreparedWrite, ArgumentError>(ArgumentError::InvalidShardSet) && next
                == self
        } else if r is Err {
            &&& next == self
            &&& r->Err_0 matches ArgumentError::ExceedsShardCapacity {
                len: l,
                aligned_len,
                capacity,
            }
            &&& l == len
            &&& aligned_len == Self::ssd_len(len)
            &&& self.is_max_capacity(allowed, capacity as int)
            &&& aligned_len > capacity
        } else {
            &&& self.some_large_enough(allowed, len)
            &&& match self.first_stop(allowed, Self::ssd_len(len), 0) {
                None => r->Ok_0 is BlockedByBusyIo && next == self,
                Some(s) => {
                    &&& r->Ok_0 matches SsdPreparedWrite::Ready { entry, evicted }
                    &&& entry == self.placed_entry(s, len)
                    &&& key_ids(evicted@) == self.evicted_by(
                        s,
                        self.place_tail(s, Self::ssd_len(len)),
                    )
                    &&& next == self.place(k, s, len)
                },
            }
        }
    }
}

proof fn lemma_round_robin(next: int, offset: int, count: int)
    requires
        0 <= next < count,
        0 <= offset < count,
    ensures
        next + offset < count ==> round_robin(next, offset, count) == next + offset,
        next + offset >= count ==> round_robin(next, offset, count) == next + offset - count,
{
    if next + offset < count {
        lemma_small_mod((next + offset) as nat, count as nat);
    } else {
        lemma_fundamental_div_mod_converse(next + offset, count, 1, next + offset - count);
    }
}

/// The search only ends at an allowed shard.
pub proof fn lemma_first_stop(m: RingModel, allowed: Seq<usize>, size: int, offset: int)
    requires
        m.inv(),
        0 <= offset,
    ensures
        m.first_stop(allowed, size, offset) matches Some(s) ==> 0 <= s < m.shards.len()
            && allowed.contains(s as usize) && (!m.fits(s, size) || !m.blocked(s, size)),
    decreases m.shards.len() - offset,
{
    if offset < m.shards.len() {
        lemma_mod_bound(m.next_shard + offset, m.shards.len() as int);
        lemma_first_stop(m, allowed, size, offset + 1);
    }
}

fn contains_shard(allowed: &Vec<usize>, shard_id: usize) -> (r: bool)
    ensures
        r == allowed@.contains(shard_id),
{
    let mut i: usize = 0;
    while i < allowed.len()
        invariant
            i <= allowed@.len(),
            forall|j: int| 0 <= j < i ==> allowed@[j] != shard_id,
        decreases allowed@.len() - i,
    {
        if allowed[i] == shard_id {
            return true;
        }
        i += 1;
    }
    false
}

impl SsdRingBuffer {
    /// Finds room for a value in any shard.
    pub fn prepare_write(&mut self, key: KvSsdKey, len: u64) -> (r: Result<
        SsdPreparedWrite,
        ArgumentError,
    >)
        requires
            old(self).wf(),
            old(self)@.search_is_sound(
                key@,
                Seq::new(old(self)@.shards.len(), |i: int| i as usize),
                len,
            ),
        ensures
            final(self).wf(),
            old(self)@.prepared(
                key@,
                len,
                Seq::new(old(self)@.shards.len(), |i: int| i as usize),
                r,
                final(self)@,
            ),
            final(self)@.live_values_apart(),
    {
        let mut allowed: Vec<usize> = Vec::new();
        let count: usize = self.shards.len();
        let mut i: usize = 0;
        while i < count
            invariant
                i <= count,
                allowed@.len() == i,
                forall|j: int| 0 <= j < i ==> allowed@[j] == j,
            decreases count - i,
        {
            allowed.push(i);
            i += 1;
        }
        assert(allowed@ =~= Seq::new(self@.shards.len(), |i: int| i as usize));
        self.prepare_write_on_shards(key, len, &allowed)
    }

    /// Finds room for a value in one of the allowed shards, going round from the shard behind the
    /// one that took the last value.
    pub fn prepare_write_on_shards(
        &mut self,
        key: KvSsdKey,
        len: u64,
        allowed_shards: &Vec<usize>,
    ) -> (r: Result<SsdPreparedWrite, ArgumentError>)
        requires
            old(self).wf(),
            old(self)@.search_is_sound(key@, allowed_shards@, len),
        ensures
            final(self).wf(),
            old(self)@.prepared(key@, len, allowed_shards@, r, final(self)@),
            final(self)@.live_values_apart(),
    {
        let r = self.find_room(key, len, allowed_shards);
        proof {
            self.lemma_wf();
            lemma_live_values_apart(self@);
        }
        r
    }

    fn find_room(&mut self, key: KvSsdKey, len: u64, allowed_shards: &Vec<usize>) -> (r: Result<
        SsdPreparedWrite,
        ArgumentError,
    >)
        requires
            old(self).wf(),
            old(self)@.search_is_sound(key@, allowed_shards@, len),
        ensures
            final(self).wf(),
            old(self)@.prepared(key@, len, allowed_shards@, r, final(self)@),
    {
        let ghost before = self@;
        let ghost allowed = allowed_shards@;
        if allowed_shards.len() == 0 {
            return Err(ArgumentError::DeviceHasNoShards);
        }
        match self.entries.get(&key) {
            Some(SsdEntryState::Writing(_)) => {
                return Ok(SsdPreparedWrite::BlockedByBusyIo);
            },
            Some(SsdEntryState::Committed(entry)) => {
                if entry.len == len {
                    return Ok(SsdPreparedWrite::Existing);
                }
                return Err(
                    ArgumentError::DuplicateLengthMismatch {
                        existing_len: entry.len,
                        requested_len: len,
                    },
                );
            },
            None => {},
        }
        let aligned_len: u64 = match align_up_u64(len, SSD_ALIGNMENT_BYTES) {
            Ok(v) => v,
            Err(e) => {
                return Err(e);
            },
        };
        let shard_count: usize = self.shards.len();
        let mut max_capacity: Option<u64> = None;
        let mut i: usize = 0;
        while i < shard_count
            invariant
                before == self@,
                allowed == allowed_shards@,
                i <= shard_count == self.shards@.len(),
                max_capacity is None ==> forall|s: int|
                    0 <= s < i ==> !#[trigger] allowed.contains(s as usize),
                max_capacity matches Some(c) ==> {
                    &&& exists|s: int|
                        0 <= s < i && #[trigger] before.shards[s].capacity == c
                            && allowed.contains(s as usize)
                    &&& forall|s: int|
                        0 <= s < i && allowed.contains(s as usize) ==> (
                        #[trigger] before.shards[s]).capacity <= c
                },
            decreases shard_count - i,
        {
            if contains_shard(allowed_shards, i) {
                let capacity: u64 = self.shards[i].capacity;
                assert(before.shards[i as int].capacity == capacity);
                let larger = match max_capacity {
                    None => true,
                    Some(c) => c <= capacity,
                };
                if larger {
                    max_capacity = Some(capacity);
                }
            }
            i += 1;
        }
        let max_capacity: u64 = match max_capacity {
            None => {
                assert(!before.some_allowed(allowed));
                return Err(ArgumentError::InvalidShardSet);
            },
            Some(c) => c,
        };
        assert(before.some_allowed(allowed)) by {
            let s = choose|s: int|
                0 <= s < before.shards.len() && #[trigger] before.shards[s].capacity == max_capacity
                    && allowed.contains(s as usize);
            assert(allowed.contains(s as usize));
        }
        if aligned_len > max_capacity {
            return Err(
                ArgumentError::ExceedsShardCapacity { len, aligned_len, capacity: max_capacity },
            );
        }
        let ghost size = aligned_len as int;
        proof {
            let s = choose|s: int|
                0 <= s < before.shards.len() && #[trigger] before.shards[s].capacity == max_capacity
                    && allowed.contains(s as usize);
            assert(size <= before.shards[s].capacity);
            assert(before.some_large_enough(allowed, len));
            lemma_aligned_up(len as int, SSD_ALIGNMENT_BYTES as int);
        }
        let mut offset: usize = 0;
        while offset < shard_count
            invariant
                self.wf(),
                before == self@,
                before == old(self)@,
                before.inv(),
                allowed == allowed_shards@,
                offset <= shard_count == self.shards@.len(),
                size == aligned_len,
                size == RingModel::ssd_len(len),
                size % SSD_ALIGNMENT_BYTES as int == 0,
                len + SSD_ALIGNMENT_BYTES - 1 <= u64::MAX,
                allowed.len() > 0,
                !before.entries.contains_key(key@),
                before.some_allowed(allowed),
                before.search_is_sound(key@, allowed, len),
                before.first_stop(allowed, size, 0) == before.first_stop(
                    allowed,
                    size,
                    offset as int,
                ),
                before.some_large_enough(allowed, len),
            decreases shard_count - offset,
        {
            let next: usize = self.next_shard;
            let shard_id: usize = if offset < shard_count - next {
                next + offset
            } else {
                offset - (shard_count - next)
            };
            proof {
                lemma_round_robin(next as int, offset as int, shard_count as int);
                lemma_first_stop(before, allowed, size, 0);
            }
            if !contains_shard(allowed_shards, shard_id) {
                offset += 1;
                continue;
            }
            let allocation = self.allocate_contiguous(shard_id, aligned_len);
            match allocation {
                SsdAllocation::Ready { begin, file_offset, evicted } => {
                    let entry = SsdIndexEntry { shard_id, begin, len, aligned_len, file_offset };
                    let ghost mid = *self;
                    let ghost s = shard_id as int;
                    proof {
                        assert(before.first_stop(allowed, size, 0) == Some(s));
                        lemma_place_inv(before, key@, s, len);
                        lemma_mod_bound(s + 1, shard_count as int);
                    }
                    self.next_shard = if shard_id + 1 < shard_count {
                        shard_id + 1
                    } else {
                        0
                    };
                    proof {
                        if shard_id + 1 < shard_count {
                            lemma_small_mod((s + 1) as nat, shard_count as nat);
                        } else {
                            lemma_fundamental_div_mod_converse(s + 1, shard_count as int, 1, 0);
                        }
                    }
                    self.entries.insert(key.dup(), SsdEntryState::Writing(entry));
                    self.shards[shard_id].order.push_back(key);
                    proof {
                        assert(key_ids(self.shards@[s].order@) =~= key_ids(
                            mid.shards@[s].order@,
                        ).push(key@));
                        assert(self@.shards =~= before.place(key@, s, len).shards);
                        assert(entry == before.placed_entry(s, len));
                        assert(self@.entries == before.place(key@, s, len).entries);
                        assert(self@.next_shard == before.place(key@, s, len).next_shard);
                        assert(self@.pins == before.place(key@, s, len).pins);
                    }
                    return Ok(SsdPreparedWrite::Ready { entry, evicted });
                },
                SsdAllocation::BlockedByBusyIo => {},
                SsdAllocation::TooLarge => {},
            }
            offset += 1;
        }
        Ok(SsdPreparedWrite::BlockedByBusyIo)
    }
}

/// The bytes of the entries of a shard that lie behind its tail.
pub open spec fn used_bytes(m: RingModel, rows: Seq<(KvSsdKey, SsdEntryState)>, shard: int) -> int
    decreases rows.len(),
{
    if rows.len() == 0 {
        0
    } else {
        let entry = rows.last().1.spec_entry();
        let rest = used_bytes(m, rows.drop_last(), shard);
        if entry.shard_id == shard && m.offset_valid(entry) {
            rest + entry.aligned_len
        } else {
            rest
        }
    }
}

/// A number of bytes, cut off at the largest that fits.
pub open spec fn saturated(bytes: int) -> int {
    if bytes > u64::MAX {
        u64::MAX as int
    } else {
        bytes
    }
}

proof fn lemma_used_bytes_nonnegative(
    m: RingModel,
    rows: Seq<(KvSsdKey, SsdEntryState)>,
    shard: int,
)
    ensures
        used_bytes(m, rows, shard) >= 0,
    decreases rows.len(),
{
    if rows.len() > 0 {
        lemma_used_bytes_nonnegative(m, rows.drop_last(), shard);
    }
}

impl SsdRingBuffer {
    /// The entries with their keys, each key once.
    pub closed spec fn entry_rows(&self) -> Seq<(KvSsdKey, SsdEntryState)> {
        self.entries.rows()
    }

    pub proof fn lemma_entry_rows(&self)
        requires
            self.wf(),
        ensures
            rows_unique(self.entry_rows()),
            rows_map(self.entry_rows()) == self@.entries,
    {
        self.entries.lemma_rows();
    }

    /// The number of live bytes in each shard, which is never more than the shard has.
    pub fn used_bytes_by_shard(&self) -> (out: Vec<u64>)
        requires
            self.wf(),
        ensures
            out@.len() == self@.shards.len(),
            forall|s: int|
                0 <= s < out@.len() ==> #[trigger] out@[s] == used_bytes(
                    self@,
                    self.entry_rows(),
                    s,
                ) && out@[s] <= self@.shards[s].capacity,
    {
        let mut out: Vec<u64> = Vec::new();
        let mut z: usize = 0;
        while z < self.shards.len()
            invariant
                z <= self.shards@.len(),
                out@.len() == z,
                forall|s: int| 0 <= s < z ==> #[trigger] out@[s] == 0,
            decreases self.shards@.len() - z,
        {
            out.push(0);
            z += 1;
        }
        let ghost rows = self.entry_rows();
        let mut i: usize = 0;
        assert(rows.take(0) =~= Seq::empty());
        while i < self.entries.len()
            invariant
                self.wf(),
                rows == self.entry_rows(),
                i <= rows.len(),
                out@.len() == self@.shards.len(),
                self.shards@.len() == out@.len(),
                forall|s: int|
                    0 <= s < out@.len() ==> #[trigger] out@[s] == saturated(
                        used_bytes(self@, rows.take(i as int), s),
                    ),
            decreases rows.len() - i,
        {
            let row = self.entries.row(i);
            let entry = row.1.entry();
            let ghost out0 = out@;
            proof {
                assert(rows.take(i + 1).drop_last() =~= rows.take(i as int));
                assert(rows.take(i + 1).last() == rows[i as int]);
                assert forall|s: int| used_bytes(self@, rows.take(i as int), s) >= 0 by {
                    lemma_used_bytes_nonnegative(self@, rows.take(i as int), s);
                }
            }
            if self.is_offset_valid(entry) {
                let used: u64 = out[entry.shard_id];
                out[entry.shard_id] = used.saturating_add(entry.aligned_len);
            }
            assert forall|s: int| 0 <= s < out@.len() implies #[trigger] out@[s] == saturated(
                used_bytes(self@, rows.take(i + 1), s),
            ) by {
                assert(out0[s] == saturated(used_bytes(self@, rows.take(i as int), s)));
            }
            i += 1;
        }
        proof {
            assert(rows.take(rows.len() as int) =~= rows);
            self.lemma_entry_rows();
            assert forall|s: int| 0 <= s < out@.len() implies #[trigger] out@[s] == used_bytes(
                self@,
                rows,
                s,
            ) && out@[s] <= self@.shards[s].capacity by {
                crate::ssd_ring_laws::used_bytes_fit_the_shard(self@, rows, s);
                assert(self@.shard_inv(s));
            }
        }
        out
    }
}

proof fn lemma_window(cap: int, b1: int, l1: int, b2: int, l2: int)
    requires
        0 < cap,
        0 <= b1,
        0 <= l1,
        0 <= l2,
        b1 + l1 <= b2,
        b2 + l2 <= b1 + cap,
    ensures
        b1 % cap + l1 <= b2 % cap || b2 % cap + l2 <= b1 % cap,
{
    lemma_fundamental_div_mod(b1, cap);
    lemma_fundamental_div_mod(b2, cap);
    lemma_mod_bound(b1, cap);
    lemma_mod_bound(b2, cap);
    let q1 = b1 / cap;
    let q2 = b2 / cap;
    let r1 = b1 % cap;
    let r2 = b2 % cap;
    let d = q2 - q1;
    assert(b2 - b1 == cap * d + r2 - r1) by (nonlinear_arith)
        requires
            b1 == cap * q1 + r1,
            b2 == cap * q2 + r2,
            d == q2 - q1,
    ;
    if d <= -1 {
        assert(cap * d <= -cap) by (nonlinear_arith)
            requires
                d <= -1,
                cap > 0,
        ;
    } else if d >= 2 {
        assert(cap * d >= 2 * cap) by (nonlinear_arith)
            requires
                d >= 2,
                cap > 0,
        ;
    } else if d == 1 {
        assert(cap * d == cap) by (nonlinear_arith)
            requires
                d == 1,
        ;
    } else {
        assert(cap * d == 0) by (nonlinear_arith)
            requires
                d == 0,
        ;
    }
}

/// Two locations behind the tail that share no logical position share no byte of the file.
proof fn lemma_apart_on_file(m: RingModel, a: SsdIndexEntry, b: SsdIndexEntry)
    requires
        m.inv(),
        m.entry_inv(a),
        m.entry_inv(b),
        m.offset_valid(a),
        m.offset_valid(b),
        a.apart(b),
    ensures
        a.file_apart(b),
{
    if a.shard_id == b.shard_id {
        let s = a.shard_id as int;
        assert(m.shard_inv(s));
        let cap = m.shards[s].capacity;
        if a.end() <= b.begin {
            lemma_window(
                cap,
                a.begin as int,
                a.aligned_len as int,
                b.begin as int,
                b.aligned_len as int,
            );
        } else {
            lemma_window(
                cap,
                b.begin as int,
                b.aligned_len as int,
                a.begin as int,
                a.aligned_len as int,
            );
        }
    }
}

/// Two live values never share a byte of a shard file.
pub proof fn live_values_share_no_bytes(m: RingModel, k: KeyId, q: KeyId)
    requires
        m.inv(),
        k != q,
        m.entries.contains_key(k),
        m.entries.contains_key(q),
        m.offset_valid(m.entries[k].spec_entry()),
        m.offset_valid(m.entries[q].spec_entry()),
    ensures
        m.entries[k].spec_entry().file_apart(m.entries[q].spec_entry()),
{
    assert(m.entry_inv(m.entries[k].spec_entry()));
    assert(m.entry_inv(m.entries[q].spec_entry()));
    lemma_apart_on_file(m, m.entries[k].spec_entry(), m.entries[q].spec_entry());
}

pub(crate) proof fn lemma_live_values_apart(m: RingModel)
    requires
        m.inv(),
    ensures
        m.live_values_apart(),
{
    assert forall|k: KeyId| #[trigger] m.live(k) implies {
        let e = m.entries[k].spec_entry();
        e.file_offset + e.aligned_len <= m.shards[e.shard_id as int].capacity
    } by {
        assert(m.entry_inv(m.entries[k].spec_entry()));
    }
    assert forall|k: KeyId, q: KeyId|
        k != q && #[trigger] m.live(k) && #[trigger] m.live(q) implies m.entries[k].spec_entry().file_apart(
    m.entries[q].spec_entry()) by {
        live_values_share_no_bytes(m, k, q);
    }
}

/// No write under way touches a byte that a reader has pinned.
pub proof fn pinned_bytes_are_not_written(m: RingModel, k: KeyId, q: KeyId)
    requires
        m.inv(),
        m.pins.contains_key(k),
        m.entries.contains_key(q),
        m.entries[q] is Writing,
    ensures
        m.pins[k].entry.file_apart(m.entries[q].spec_entry()),
{
    assert(m.entry_inv(m.pins[k].entry));
    assert(m.entry_inv(m.entries[q].spec_entry()));
    lemma_apart_on_file(m, m.pins[k].entry, m.entries[q].spec_entry());
}

/// What was written and committed is read back from where it was written.
pub proof fn committed_write_is_readable(m: RingModel, k: KeyId, s: int, len: u64)
    requires
        m.inv(),
        0 <= s < m.shards.len() <= usize::MAX,
        !m.entries.contains_key(k),
        m.fits(s, RingModel::ssd_len(len)),
        !m.blocked(s, RingModel::ssd_len(len)),
    ensures
        m.place(k, s, len).commits(k, true),
        m.place(k, s, len).commit(k, true).readable(k) == Some(m.placed_entry(s, len)),
        m.place(k, s, len).readable(k) is None,
        m.place(k, s, len).commit(k, false).readable(k) is None,
{
    lemma_place_inv(m, k, s, len);
    let n = m.place(k, s, len);
    assert(n.entries.contains_key(k));
    assert(n.offset_valid(n.entries[k].spec_entry()));
}

/// Letting go of a location right after taking hold of it changes nothing.
pub proof fn unpin_undoes_pin(m: RingModel, k: KeyId, entry: SsdIndexEntry)
    requires
        m.inv(),
        m.readable(k) == Some(entry),
        m.pins.contains_key(k) ==> m.pins[k].count < usize::MAX,
    ensures
        m.pin(k, entry).unpin(k) == m,
{
    if m.pins.contains_key(k) {
        assert(m.pins[k].count > 0);
    }
    assert(m.pin(k, entry).unpin(k).pins =~= m.pins);
    assert(m.pin(k, entry).unpin(k) =~= m);
}

/// Room in a shard that is cut to the alignment begins and ends at aligned file offsets.
pub proof fn placed_entries_suit_direct_io(m: RingModel, k: KeyId)
    requires
        m.inv(),
        m.entries.contains_key(k),
        m.shards[m.entries[k].spec_entry().shard_id as int].capacity % SSD_ALIGNMENT_BYTES as int
            == 0,
    ensures
        m.entries[k].spec_entry().file_offset % SSD_ALIGNMENT_BYTES == 0,
        m.entries[k].spec_entry().aligned_len % SSD_ALIGNMENT_BYTES == 0,
        m.entries[k].spec_entry().file_offset + m.entries[k].spec_entry().aligned_len
            <= m.shards[m.entries[k].spec_entry().shard_id as int].capacity,
        m.entries[k].spec_entry().len <= m.entries[k].spec_entry().aligned_len,
{
    let e = m.entries[k].spec_entry();
    assert(m.entry_inv(e));
    lemma_aligned_up(e.len as int, SSD_ALIGNMENT_BYTES as int);
}

/// The bytes of the files, by shard and offset.
pub type Disk = spec_fn((int, int)) -> u8;

/// The place lies within the bytes of an entry.
pub open spec fn covers(e: SsdIndexEntry, at: (int, int)) -> bool {
    at.0 == e.shard_id && e.file_offset <= at.1 < e.file_offset + e.aligned_len
}

/// The files after the bytes of an entry were written.
pub open spec fn written(disk: Disk, e: SsdIndexEntry, bytes: Seq<u8>) -> Disk {
    |at: (int, int)|
        if covers(e, at) {
            bytes[at.1 - e.file_offset]
        } else {
            disk(at)
        }
}

/// The value that is read from where an entry lies.
pub open spec fn read_back(disk: Disk, e: SsdIndexEntry) -> Seq<u8> {
    Seq::new(e.len as nat, |i: int| disk((e.shard_id as int, e.file_offset + i)))
}

/// A value is read as it was written, behind it padding up to the alignment.
pub proof fn a_value_is_read_as_written(disk: Disk, e: SsdIndexEntry, bytes: Seq<u8>)
    requires
        bytes.len() == e.aligned_len,
        e.len <= e.aligned_len,
    ensures
        read_back(written(disk, e, bytes), e) == bytes.take(e.len as int),
{
    assert forall|i: int| 0 <= i < e.len implies #[trigger] read_back(written(disk, e, bytes), e)[i]
        == bytes[i] by {
        assert(covers(e, (e.shard_id as int, e.file_offset + i)));
    }
    assert(read_back(written(disk, e, bytes), e) =~= bytes.take(e.len as int));
}

/// While a value has its place, no write of another one changes what is read there.
pub proof fn writes_leave_other_values_alone(
    m: RingModel,
    k: KeyId,
    q: KeyId,
    disk: Disk,
    bytes: Seq<u8>,
)
    requires
        m.inv(),
        k != q,
        m.entries.contains_key(k),
        m.offset_valid(m.entries[k].spec_entry()),
        m.entries.contains_key(q),
        m.offset_valid(m.entries[q].spec_entry()),
    ensures
        read_back(written(disk, m.entries[q].spec_entry(), bytes), m.entries[k].spec_entry())
            == read_back(disk, m.entries[k].spec_entry()),
{
    live_values_share_no_bytes(m, k, q);
    let e = m.entries[k].spec_entry();
    let w = m.entries[q].spec_entry();
    assert(m.entry_inv(e));
    lemma_aligned_up(e.len as int, SSD_ALIGNMENT_BYTES as int);
    assert forall|i: int| 0 <= i < e.len implies !covers(
        w,
        (e.shard_id as int, #[trigger] (e.file_offset + i)),
    ) by {}
    assert(read_back(written(disk, w, bytes), e) =~= read_back(disk, e));
}

/// While a reader has a value pinned, no write under way changes what is read.
pub proof fn writes_leave_pinned_values_alone(
    m: RingModel,
    k: KeyId,
    q: KeyId,
    disk: Disk,
    bytes: Seq<u8>,
)
    requires
        m.inv(),
        m.pins.contains_key(k),
        m.entries.contains_key(q),
        m.entries[q] is Writing,
    ensures
        read_back(written(disk, m.entries[q].spec_entry(), bytes), m.pins[k].entry) == read_back(
            disk,
            m.pins[k].entry,
        ),
{
    pinned_bytes_are_not_written(m, k, q);
    let e = m.pins[k].entry;
    let w = m.entries[q].spec_entry();
    assert(m.entry_inv(e));
    lemma_aligned_up(e.len as int, SSD_ALIGNMENT_BYTES as int);
    assert forall|i: int| 0 <= i < e.len implies !covers(
        w,
        (e.shard_id as int, #[trigger] (e.file_offset + i)),
    ) by {}
    assert(read_back(written(disk, w, bytes), e) =~= read_back(disk, e));
}

} // verus!
