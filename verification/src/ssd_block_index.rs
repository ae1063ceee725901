//! The bookkeeping of the block-cache backend: which values it holds, how long they are, and where
//! reads were served from.
use vstd::prelude::*;

use crate::align::SSD_ALIGNMENT_BYTES;
use crate::assoc::{lemma_row_in_map, AssocMap};
use crate::error::{ArgumentError, SsdError};
use crate::ssd_plan::{chunk_len, chunk_step, is_cut, plan_chunks, ChunkRequest};
use crate::ssd_ring::{KeyId, KvSsdKey};

verus! {

/// The block size of the backend, and the least capacity it takes.
pub const FOYER_BLOCK_SIZE_BYTES: u64 = 67108864;

/// Where the backend found a value.
#[derive(Clone, Copy, Debug, PartialEq, Eq, Structural)]
pub enum CacheSource {
    Memory,
    Disk,
    Outer,
}

/// The sum of the lengths in a list of rows.
pub open spec fn total_len(rows: Seq<(KvSsdKey, u64)>) -> int
    decreases rows.len(),
{
    if rows.len() == 0 {
        0
    } else {
        total_len(rows.drop_last()) + rows.last().1
    }
}

proof fn lemma_total_push(rows: Seq<(KvSsdKey, u64)>, row: (KvSsdKey, u64))
    ensures
        total_len(rows.push(row)) == total_len(rows) + row.1,
{
    assert(rows.push(row).drop_last() =~= rows);
}

proof fn lemma_total_remove(rows: Seq<(KvSsdKey, u64)>, at: int)
    requires
        0 <= at < rows.len(),
    ensures
        total_len(rows.remove(at)) == total_len(rows) - rows[at].1,
    decreases rows.len(),
{
    if at == rows.len() - 1 {
        assert(rows.remove(at) =~= rows.drop_last());
    } else {
        lemma_total_remove(rows.drop_last(), at);
        assert(rows.remove(at).drop_last() =~= rows.drop_last().remove(at));
    }
}

proof fn lemma_total_same(a: Seq<(KvSsdKey, u64)>, b: Seq<(KvSsdKey, u64)>)
    requires
        a.len() == b.len(),
        forall|i: int| 0 <= i < a.len() ==> (#[trigger] a[i]).1 == b[i].1,
    ensures
        total_len(a) == total_len(b),
    decreases a.len(),
{
    if a.len() > 0 {
        assert(a.last().1 == b.last().1);
        assert forall|i: int| 0 <= i < a.drop_last().len() implies (
        #[trigger] a.drop_last()[i]).1 == b.drop_last()[i].1 by {
            assert(a[i].1 == b[i].1);
        }
        lemma_total_same(a.drop_last(), b.drop_last());
    }
}

proof fn lemma_total_nonnegative(rows: Seq<(KvSsdKey, u64)>)
    ensures
        total_len(rows) >= 0,
    decreases rows.len(),
{
    if rows.len() > 0 {
        lemma_total_nonnegative(rows.drop_last());
    }
}

/// Where the backend found a value.
pub open spec fn found_in(found: FoundValue) -> Option<CacheSource> {
    match found {
        Some((_, source)) => Some(source),
        None => None,
    }
}

/// A read in chunks fails with `e`: it is refused as a whole, or a chunk would lie behind the last
/// address.
pub open spec fn block_chunks_fail(
    found: Option<Seq<u8>>,
    target_addr: u64,
    len: u64,
    target_len: u64,
    chunk_bytes: u64,
    e: SsdError,
) -> bool {
    if target_len >= len && chunk_bytes + SSD_ALIGNMENT_BYTES - 1 > u64::MAX {
        e == SsdError::InvalidArgument(ArgumentError::AlignmentOverflow { value: chunk_bytes })
    } else {
        match block_load_fault(found, len, target_len) {
            Some(fault) => e == fault,
            None => {
                &&& e matches SsdError::InvalidArgument(ArgumentError::SumOverflow { lhs, rhs })
                &&& lhs == target_addr
                &&& rhs < len
                &&& target_addr + rhs > u64::MAX
                &&& rhs as int % chunk_step(chunk_bytes) == 0
                &&& rhs >= chunk_step(chunk_bytes) ==> target_addr + rhs - chunk_step(chunk_bytes)
                    <= u64::MAX
            },
        }
    }
}

/// What was read in chunks: the bytes and the chunks to copy.
pub open spec fn chunked(r: Result<(&[u8], Vec<ChunkRequest>), SsdError>) -> Result<
    (Seq<u8>, Seq<ChunkRequest>),
    SsdError,
> {
    match r {
        Ok((bytes, chunks)) => Ok((bytes@, chunks@)),
        Err(e) => Err(e),
    }
}

/// What the backend found is handed out in chunks, or refused.
pub open spec fn block_chunked(
    found: Option<Seq<u8>>,
    target_addr: u64,
    len: u64,
    target_len: u64,
    chunk_bytes: u64,
    r: Result<(Seq<u8>, Seq<ChunkRequest>), SsdError>,
) -> bool {
    match r {
        Ok((bytes, chunks)) => {
            &&& chunk_bytes + SSD_ALIGNMENT_BYTES - 1 <= u64::MAX
            &&& block_load_fault(found, len, target_len) is None
            &&& found == Some(bytes)
            &&& is_cut(
                chunks,
                chunk_step(chunk_bytes),
                len as int,
                target_addr as int,
                target_len as int,
            )
        },
        Err(e) => block_chunks_fail(found, target_addr, len, target_len, chunk_bytes, e),
    }
}

/// What is handed out in chunks is the value that was found, whole and as long as expected; the chunks, end to
/// end, are that value. A read is refused only if the value is not found, is of another length, or does not fit
/// into the target, or if an address or a chunk length cannot be counted.
pub proof fn chunks_of_a_block_make_it_up(
    found: Option<Seq<u8>>,
    target_addr: u64,
    len: u64,
    target_len: u64,
    chunk_bytes: u64,
    r: Result<(Seq<u8>, Seq<ChunkRequest>), SsdError>,
)
    requires
        block_chunked(found, target_addr, len, target_len, chunk_bytes, r),
    ensures
        r matches Ok((bytes, chunks)) ==> {
            &&& found == Some(bytes)
            &&& bytes.len() == len && len <= target_len
            &&& crate::ssd_store_laws::assembled(bytes, chunks) == bytes
            &&& forall|i: int|
                0 <= i < chunks.len() ==> (#[trigger] chunks[i]).stage_addr == target_addr
                    + chunks[i].offset
        },
        target_len < len || found is None || found->0.len() != len ==> r is Err,
        r is Err && target_len >= len && found is Some && found->0.len() == len ==> target_addr + len
            > u64::MAX || chunk_bytes + 511 > u64::MAX,
{
    if let Ok((bytes, chunks)) = r {
        crate::ssd_store_laws::chunks_are_whole_blocks(chunk_bytes);
        crate::ssd_store_laws::chunks_make_up_the_value(
            bytes,
            chunks,
            chunk_step(chunk_bytes),
            target_addr as int,
            target_len as int,
        );
    }
}

/// The index of the backend.
pub struct FoyerKvSsdStorage {
    root_dir: String,
    capacity_bytes: u64,
    entry_lengths: AssocMap<KvSsdKey, u64>,
    logical_used_bytes: u64,
    memory_hits: u64,
    disk_hits: u64,
    outer_hits: u64,
}

/// The index, as mathematical values.
pub struct BlockIndexModel {
    pub root_dir: Seq<char>,
    pub capacity: u64,
    pub lengths: Map<KeyId, u64>,
    pub used: int,
    pub hits: (u64, u64, u64),
}

impl View for FoyerKvSsdStorage {
    type V = BlockIndexModel;

    closed spec fn view(&self) -> BlockIndexModel {
        BlockIndexModel {
            root_dir: self.root_dir@,
            capacity: self.capacity_bytes,
            lengths: self.entry_lengths@,
            used: self.logical_used_bytes as int,
            hits: (self.memory_hits, self.disk_hits, self.outer_hits),
        }
    }
}

/// The count after one more; it starts anew after the largest number.
pub open spec fn next_count(count: u64) -> u64 {
    if count == u64::MAX {
        0
    } else {
        (count + 1) as u64
    }
}

/// What is wrong with reading `len` bytes into a target of `target_len`, given what the backend found.
/// A target that is too small is refused before the backend is asked.
pub open spec fn block_load_fault(found: Option<Seq<u8>>, len: u64, target_len: u64) -> Option<
    SsdError,
> {
    if target_len < len {
        Some(SsdError::InvalidArgument(ArgumentError::TargetTooSmall { len, target_len }))
    } else {
        match found {
            None => Some(SsdError::KeyNotFound),
            Some(value) => if value.len() != len {
                Some(
                    SsdError::InvalidArgument(
                        ArgumentError::StoredLengthMismatch {
                            stored_len: value.len() as u64,
                            requested_len: len,
                        },
                    ),
                )
            } else {
                None
            },
        }
    }
}

/// What the backend found, and where.
pub type FoundValue<'a> = Option<(&'a [u8], CacheSource)>;

/// The bytes that the backend found.
pub open spec fn found_bytes(found: FoundValue) -> Option<Seq<u8>> {
    match found {
        Some((value, _)) => Some(value@),
        None => None,
    }
}

/// Whether a target is large enough.
pub fn check_target(len: u64, target_len: u64) -> (r: Result<(), ArgumentError>)
    ensures
        r == if target_len < len {
            Err(ArgumentError::TargetTooSmall { len, target_len })
        } else {
            Ok(())
        },
{
    if target_len < len {
        return Err(ArgumentError::TargetTooSmall { len, target_len });
    }
    Ok(())
}

impl BlockIndexModel {
    /// The index after the backend was asked for a value.
    pub open spec fn asked(self, k: KeyId, found: Option<CacheSource>) -> BlockIndexModel {
        match found {
            None => self.forgotten(k),
            Some(source) => self.served(source),
        }
    }

    /// The index after the backend was asked for a value in chunks, or was not asked.
    pub open spec fn asked_in_chunks(
        self,
        k: KeyId,
        found: Option<CacheSource>,
        len: u64,
        target_len: u64,
        chunk_bytes: u64,
    ) -> BlockIndexModel {
        if target_len < len || chunk_bytes + SSD_ALIGNMENT_BYTES - 1 > u64::MAX {
            self
        } else {
            self.asked(k, found)
        }
    }

    /// What is wrong with storing `len` bytes under a key.
    pub open spec fn persist_fault(self, k: KeyId, len: u64) -> Option<ArgumentError> {
        if len == 0 {
            Some(ArgumentError::EmptyValue)
        } else if self.lengths.contains_key(k) && self.lengths[k] != len {
            Some(
                ArgumentError::DuplicateLengthMismatch {
                    existing_len: self.lengths[k],
                    requested_len: len,
                },
            )
        } else {
            None
        }
    }

    /// The index after a value was stored.
    pub open spec fn stored(self, k: KeyId, len: u64) -> BlockIndexModel {
        BlockIndexModel {
            lengths: self.lengths.insert(k, len),
            used: if self.lengths.contains_key(k) {
                self.used
            } else {
                self.used + len
            },
            ..self
        }
    }

    /// The index after a value was found to be gone.
    pub open spec fn forgotten(self, k: KeyId) -> BlockIndexModel {
        BlockIndexModel {
            lengths: self.lengths.remove(k),
            used: if self.lengths.contains_key(k) {
                self.used - self.lengths[k]
            } else {
                self.used
            },
            ..self
        }
    }

    /// The index after a read was served.
    pub open spec fn served(self, source: CacheSource) -> BlockIndexModel {
        BlockIndexModel {
            hits: match source {
                CacheSource::Memory => (next_count(self.hits.0), self.hits.1, self.hits.2),
                CacheSource::Disk => (self.hits.0, next_count(self.hits.1), self.hits.2),
                CacheSource::Outer => (self.hits.0, self.hits.1, next_count(self.hits.2)),
            },
            ..self
        }
    }
}

impl FoyerKvSsdStorage {
    /// The number of used bytes is the sum of the lengths.
    pub closed spec fn wf(&self) -> bool {
        &&& self.entry_lengths.wf()
        &&& self.logical_used_bytes == total_len(self.entry_lengths.rows())
    }

    /// The lengths with their keys, each key once.
    pub closed spec fn length_rows(&self) -> Seq<(KvSsdKey, u64)> {
        self.entry_lengths.rows()
    }

    /// The number of used bytes is the sum of the lengths of the values that are held.
    pub proof fn used_is_the_sum_of_lengths(&self)
        requires
            self.wf(),
        ensures
            self@.used == total_len(self.length_rows()),
            crate::assoc::rows_map(self.length_rows()) == self@.lengths,
            crate::assoc::rows_unique(self.length_rows()),
    {
        self.entry_lengths.lemma_rows();
    }

    /// An empty index for a root that is large enough.
    pub fn new(root_dir: String, limit_bytes: u64) -> (r: Result<Self, ArgumentError>)
        ensures
            match r {
                Ok(s) => {
                    &&& limit_bytes >= FOYER_BLOCK_SIZE_BYTES
                    &&& s.wf()
                    &&& s@ == (BlockIndexModel {
                        root_dir: root_dir@,
                        capacity: limit_bytes,
                        lengths: Map::empty(),
                        used: 0,
                        hits: (0, 0, 0),
                    })
                },
                Err(e) => limit_bytes < FOYER_BLOCK_SIZE_BYTES && e == (
                ArgumentError::BackendCapacityTooSmall {
                    limit_bytes,
                    minimum_bytes: FOYER_BLOCK_SIZE_BYTES,
                }),
            },
    {
        if limit_bytes < FOYER_BLOCK_SIZE_BYTES {
            return Err(
                ArgumentError::BackendCapacityTooSmall {
                    limit_bytes,
                    minimum_bytes: FOYER_BLOCK_SIZE_BYTES,
                },
            );
        }
        Ok(
            FoyerKvSsdStorage {
                root_dir,
                capacity_bytes: limit_bytes,
                entry_lengths: AssocMap::new(),
                logical_used_bytes: 0,
                memory_hits: 0,
                disk_hits: 0,
                outer_hits: 0,
            },
        )
    }

    pub fn root_dir(&self) -> (r: &String)
        ensures
            r@ == self@.root_dir,
    {
        &self.root_dir
    }

    pub fn capacity_bytes(&self) -> (r: u64)
        ensures
            r == self@.capacity,
    {
        self.capacity_bytes
    }

    /// The bytes of all values, but no more than the capacity.
    pub fn logical_used_bytes(&self) -> (r: u64)
        ensures
            r == if self@.used < self@.capacity {
                self@.used
            } else {
                self@.capacity as int
            },
    {
        if self.logical_used_bytes < self.capacity_bytes {
            self.logical_used_bytes
        } else {
            self.capacity_bytes
        }
    }

    /// Whether a value of `len` bytes may be stored under the key.
    pub fn check_persist(&self, key: &KvSsdKey, len: u64) -> (r: Result<(), ArgumentError>)
        requires
            self.wf(),
        ensures
            match r {
                Ok(_) => self@.persist_fault(key@, len) is None,
                Err(e) => self@.persist_fault(key@, len) == Some(e),
            },
    {
        if len == 0 {
            return Err(ArgumentError::EmptyValue);
        }
        match self.entry_lengths.get(key) {
            Some(existing) => {
                if *existing != len {
                    return Err(
                        ArgumentError::DuplicateLengthMismatch {
                            existing_len: *existing,
                            requested_len: len,
                        },
                    );
                }
            },
            None => {},
        }
        Ok(())
    }

    /// The number of used bytes can grow by a value of this length.
    pub fn can_count(&self, len: u64) -> (r: bool)
        ensures
            r == (self@.used + len <= u64::MAX),
    {
        len <= u64::MAX - self.logical_used_bytes
    }

    /// Takes note of a value that the backend has made durable.
    pub fn persisted(&mut self, key: KvSsdKey, len: u64)
        requires
            old(self).wf(),
            old(self)@.persist_fault(key@, len) is None,
            old(self)@.lengths.contains_key(key@) || old(self)@.used + len <= u64::MAX,
        ensures
            final(self).wf(),
            final(self)@ == old(self)@.stored(key@, len),
    {
        let ghost rows = self.entry_lengths.rows();
        proof {
            self.entry_lengths.lemma_rows();
        }
        let previous = self.entry_lengths.insert(key, len);
        match previous {
            None => {
                proof {
                    lemma_total_push(rows, (key, len));
                }
                self.logical_used_bytes = self.logical_used_bytes + len;
            },
            Some(_) => {
                proof {
                    let at = choose|i: int|
                        #![trigger rows[i]]
                        0 <= i < rows.len() && rows[i].0@ == key@ && self.entry_lengths.rows()
                            == rows.update(i, (key, len));
                    lemma_row_in_map(rows, at);
                    lemma_total_same(rows, rows.update(at, (key, len)));
                }
            },
        }
    }

    /// Takes note that a value is gone.
    pub fn forget_entry(&mut self, key: &KvSsdKey)
        requires
            old(self).wf(),
        ensures
            final(self).wf(),
            final(self)@ == old(self)@.forgotten(key@),
    {
        let ghost rows = self.entry_lengths.rows();
        let ghost before = self.entry_lengths@;
        proof {
            self.entry_lengths.lemma_rows();
        }
        match self.entry_lengths.remove(key) {
            Some(len) => {
                proof {
                    let at = choose|i: int|
                        #![trigger rows[i]]
                        0 <= i < rows.len() && rows[i].0@ == key@ && self.entry_lengths.rows()
                            == rows.remove(i);
                    lemma_row_in_map(rows, at);
                    lemma_total_remove(rows, at);
                    lemma_total_nonnegative(rows.remove(at));
                }
                self.logical_used_bytes = self.logical_used_bytes - len;
            },
            None => {
                assert(before.remove(key@) =~= before);
            },
        }
    }

    /// Takes note of where a value came from.
    pub fn record_source(&mut self, source: CacheSource)
        requires
            old(self).wf(),
        ensures
            final(self).wf(),
            final(self)@ == old(self)@.served(source),
    {
        match source {
            CacheSource::Memory => {
                self.memory_hits = self.memory_hits.wrapping_add(1);
            },
            CacheSource::Disk => {
                self.disk_hits = self.disk_hits.wrapping_add(1);
            },
            CacheSource::Outer => {
                self.outer_hits = self.outer_hits.wrapping_add(1);
            },
        }
    }

    pub fn source_counts(&self) -> (r: (u64, u64, u64))
        ensures
            r == self@.hits,
    {
        (self.memory_hits, self.disk_hits, self.outer_hits)
    }

    /// Judges what the backend found under a key: nothing, or a value of some length.
    pub fn load_entry(
        &mut self,
        key: &KvSsdKey,
        found: Option<(u64, CacheSource)>,
        expected_len: u64,
    ) -> (r: Result<(), SsdError>)
        requires
            old(self).wf(),
        ensures
            final(self).wf(),
            match found {
                None => r == Err::<(), SsdError>(SsdError::KeyNotFound) && final(self)@ == old(
                    self,
                )@.forgotten(key@),
                Some((len, source)) => {
                    &&& final(self)@ == old(self)@.served(source)
                    &&& r == if len == expected_len {
                        Ok(())
                    } else {
                        Err(
                            SsdError::InvalidArgument(
                                ArgumentError::StoredLengthMismatch {
                                    stored_len: len,
                                    requested_len: expected_len,
                                },
                            ),
                        )
                    }
                },
            },
    {
        match found {
            None => {
                self.forget_entry(key);
                Err(SsdError::KeyNotFound)
            },
            Some((len, source)) => {
                self.record_source(source);
                if len != expected_len {
                    return Err(
                        SsdError::InvalidArgument(
                            ArgumentError::StoredLengthMismatch {
                                stored_len: len,
                                requested_len: expected_len,
                            },
                        ),
                    );
                }
                Ok(())
            },
        }
    }

    /// Judges what the backend found under a key, and hands out the bytes to copy.
    pub fn load_into_addr<'a>(
        &mut self,
        key: &KvSsdKey,
        found: FoundValue<'a>,
        len: u64,
        target_len: u64,
    ) -> (r: Result<&'a [u8], SsdError>)
        requires
            old(self).wf(),
        ensures
            final(self).wf(),
            final(self)@ == if target_len < len {
                old(self)@
            } else {
                old(self)@.asked(key@, found_in(found))
            },
            match r {
                Ok(bytes) => {
                    &&& block_load_fault(found_bytes(found), len, target_len) is None
                    &&& found_bytes(found) == Some(bytes@)
                },
                Err(e) => block_load_fault(found_bytes(found), len, target_len) == Some(e),
            },
    {
        if let Err(e) = check_target(len, target_len) {
            return Err(SsdError::InvalidArgument(e));
        }
        match found {
            Some((value, source)) => {
                match self.load_entry(key, Some((value.len() as u64, source)), len) {
                    Ok(_) => Ok(value),
                    Err(e) => Err(e),
                }
            },
            None => match self.load_entry(key, None, len) {
                Ok(_) => vstd::pervasive::unreached(),
                Err(e) => Err(e),
            },
        }
    }

    /// Judges what the backend found under a key, and cuts it into the chunks to copy.
    pub fn load_into_addr_chunks<'a>(
        &mut self,
        key: &KvSsdKey,
        found: FoundValue<'a>,
        target_addr: u64,
        len: u64,
        target_len: u64,
        chunk_bytes: u64,
    ) -> (r: Result<(&'a [u8], Vec<ChunkRequest>), SsdError>)
        requires
            old(self).wf(),
        ensures
            final(self).wf(),
            final(self)@ == old(self)@.asked_in_chunks(
                key@,
                found_in(found),
                len,
                target_len,
                chunk_bytes,
            ),
            block_chunked(
                found_bytes(found),
                target_addr,
                len,
                target_len,
                chunk_bytes,
                chunked(r),
            ),
    {
        if let Err(e) = check_target(len, target_len) {
            return Err(SsdError::InvalidArgument(e));
        }
        let step: u64 = match chunk_len(chunk_bytes) {
            Ok(v) => v,
            Err(e) => {
                return Err(SsdError::InvalidArgument(e));
            },
        };
        let bytes = match self.load_into_addr(key, found, len, target_len) {
            Ok(bytes) => bytes,
            Err(e) => {
                return Err(e);
            },
        };
        match plan_chunks(step, len, target_addr, target_len) {
            Ok(chunks) => Ok((bytes, chunks)),
            Err(e) => Err(SsdError::InvalidArgument(e)),
        }
    }
}

/// A value may be stored if it is not empty and no other length is known under its key.
pub proof fn a_key_has_one_length(m: BlockIndexModel, k: KeyId, len: u64, other: u64)
    ensures
        m.persist_fault(k, 0) is Some,
        len > 0 && !m.lengths.contains_key(k) ==> m.persist_fault(k, len) is None,
        m.persist_fault(k, len) is None ==> {
            let after = m.stored(k, len);
            &&& after.lengths.contains_key(k) && after.lengths[k] == len
            &&& after.persist_fault(k, len) is None
            &&& other != len ==> after.persist_fault(k, other) is Some
            &&& after.stored(k, len).used == after.used
            &&& after.used == m.used + if m.lengths.contains_key(k) {
                0
            } else {
                len as int
            }
        },
        forall|j: KeyId|
            j != k ==> (#[trigger] m.stored(k, len).lengths.contains_key(j) <==> m.lengths.contains_key(
                j,
            )) && m.stored(k, len).lengths[j] == m.lengths[j],
        m.stored(k, len).hits == m.hits,
        m.stored(k, len).capacity == m.capacity,
{
}

/// Each read that is served counts once, where its value was found.
pub proof fn reads_count_where_they_were_served(m: BlockIndexModel, k: KeyId, source: CacheSource)
    requires
        m.hits.0 < u64::MAX,
        m.hits.1 < u64::MAX,
        m.hits.2 < u64::MAX,
    ensures
        ({
            let after = m.asked(k, Some(source));
            &&& after.hits.0 + after.hits.1 + after.hits.2 == m.hits.0 + m.hits.1 + m.hits.2 + 1
            &&& source == CacheSource::Memory <==> after.hits.0 == m.hits.0 + 1
            &&& source == CacheSource::Disk <==> after.hits.1 == m.hits.1 + 1
            &&& source == CacheSource::Outer <==> after.hits.2 == m.hits.2 + 1
            &&& after.lengths == m.lengths
            &&& after.used == m.used
        }),
        m.asked(k, None).hits == m.hits,
        !m.asked(k, None).lengths.contains_key(k),
{
}

/// A read succeeds exactly if the whole value was found, as long as was expected, and there is room for
/// it. A target that is too small is refused whatever was found.
pub proof fn a_block_is_read_as_a_whole(found: Option<Seq<u8>>, len: u64, target_len: u64)
    ensures
        block_load_fault(found, len, target_len) is None <==> target_len >= len && found is Some
            && found->0.len() == len,
        target_len < len ==> block_load_fault(found, len, target_len)
            == block_load_fault(None, len, target_len),
        target_len >= len && found is None ==> block_load_fault(found, len, target_len) == Some(
            SsdError::KeyNotFound,
        ),
{
}

/// A value that was stored anew and then found gone leaves the index as it was.
pub proof fn forgetting_undoes_storing(m: BlockIndexModel, k: KeyId, len: u64)
    requires
        !m.lengths.contains_key(k),
    ensures
        m.stored(k, len).forgotten(k) == m,
{
    assert(m.lengths.insert(k, len).remove(k) =~= m.lengths);
}

} // verus!
