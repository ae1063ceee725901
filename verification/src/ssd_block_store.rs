//! The store on the block-cache backend: the backend keeps the bytes, and the store decides what may
//! be asked of it and what becomes of its answers.
use vstd::prelude::*;

use crate::error::{ArgumentError, SsdError};
use crate::ssd_block_index::{
    block_chunked, block_load_fault, check_target, chunked, found_bytes, found_in, BlockIndexModel,
    CacheSource, FoundValue,
};
use crate::ssd_plan::{validate_key, ChunkRequest};
use crate::ssd_ring::{KeyId, KvSsdKey};
use crate::ssd_storage::KvSsdStorage;

verus! {

impl KvSsdStorage {
    /// What stands against asking the backend for a value.
    pub open spec fn block_request_fault(&self, key: Seq<char>, len: u64, target_len: u64) -> Option<
        SsdError,
    > {
        if !self.admitting {
            Some(SsdError::SystemShutdown)
        } else if key.len() == 0 {
            Some(SsdError::InvalidArgument(ArgumentError::EmptyKey))
        } else if target_len < len {
            Some(SsdError::InvalidArgument(ArgumentError::TargetTooSmall { len, target_len }))
        } else {
            None
        }
    }

    /// What stands against handing bytes to the backend.
    pub open spec fn block_admission_fault(&self, key: Seq<char>, len: u64) -> Option<SsdError> {
        if !self.admitting {
            Some(SsdError::SystemShutdown)
        } else if key.len() == 0 {
            Some(SsdError::InvalidArgument(ArgumentError::EmptyKey))
        } else if len == 0 {
            Some(SsdError::InvalidArgument(ArgumentError::EmptyValue))
        } else {
            None
        }
    }

    /// Everything but the index of the backend is the same.
    pub open spec fn same_but_blocks(&self, other: &Self) -> bool {
        *self == (KvSsdStorage { foyer: self.foyer, ..*other })
    }

    /// Whether the backend may be asked for a value.
    pub fn admit_block_load(&self, key: &str, len: u64, target_len: u64) -> (r: Result<
        (),
        SsdError,
    >)
        ensures
            match r {
                Ok(_) => self.block_request_fault(key@, len, target_len) is None,
                Err(e) => self.block_request_fault(key@, len, target_len) == Some(e),
            },
    {
        if !self.admitting {
            return Err(SsdError::SystemShutdown);
        }
        if let Err(e) = validate_key(key) {
            return Err(SsdError::InvalidArgument(e));
        }
        if let Err(e) = check_target(len, target_len) {
            return Err(SsdError::InvalidArgument(e));
        }
        Ok(())
    }

    /// Whether bytes may be handed to the backend, once it is their turn.
    pub fn admit_block_persist(&self, key: &str, len: u64) -> (r: Result<(), SsdError>)
        ensures
            match r {
                Ok(_) => self.block_admission_fault(key@, len) is None,
                Err(e) => self.block_admission_fault(key@, len) == Some(e),
            },
    {
        if !self.admitting {
            return Err(SsdError::SystemShutdown);
        }
        if let Err(e) = validate_key(key) {
            return Err(SsdError::InvalidArgument(e));
        }
        if len == 0 {
            return Err(SsdError::InvalidArgument(ArgumentError::EmptyValue));
        }
        Ok(())
    }

    /// It is the turn of bytes that were admitted: whether they may be stored under the key.
    pub fn check_block_persist(&self, key: &KvSsdKey, len: u64) -> (r: Result<(), SsdError>)
        requires
            self.wf(),
            self.foyer is Some,
        ensures
            match r {
                Ok(_) => self.foyer->0@.persist_fault(key@, len) is None,
                Err(e) => e matches SsdError::InvalidArgument(fault)
                    && self.foyer->0@.persist_fault(key@, len) == Some(fault),
            },
    {
        match &self.foyer {
            Some(index) => match index.check_persist(key, len) {
                Ok(_) => Ok(()),
                Err(e) => Err(SsdError::InvalidArgument(e)),
            },
            None => vstd::pervasive::unreached(),
        }
    }

    /// The number of used bytes can grow by a value of this length.
    pub fn can_count_block(&self, len: u64) -> (r: bool)
        requires
            self.foyer is Some,
        ensures
            r == (self.foyer->0@.used + len <= u64::MAX),
    {
        match &self.foyer {
            Some(index) => index.can_count(len),
            None => vstd::pervasive::unreached(),
        }
    }

    /// The backend has made a value durable.
    pub fn block_persisted(&mut self, key: KvSsdKey, len: u64)
        requires
            old(self).wf(),
            old(self).foyer matches Some(index) && {
                &&& index@.persist_fault(key@, len) is None
                &&& index@.lengths.contains_key(key@) || index@.used + len <= u64::MAX
            },
        ensures
            final(self).wf(),
            final(self).same_but_blocks(old(self)),
            final(self).foyer matches Some(index) && index@ == old(self).foyer->0@.stored(
                key@,
                len,
            ),
    {
        match self.foyer.take() {
            Some(mut index) => {
                index.persisted(key, len);
                self.foyer = Some(index);
            },
            None => {},
        }
    }

    /// The backend was asked for a value: judges what it found, and hands out the bytes to copy.
    pub fn load_from_blocks<'a>(
        &mut self,
        key: &KvSsdKey,
        found: FoundValue<'a>,
        len: u64,
        target_len: u64,
    ) -> (r: Result<&'a [u8], SsdError>)
        requires
            old(self).wf(),
            old(self).foyer is Some,
        ensures
            final(self).wf(),
            final(self).same_but_blocks(old(self)),
            final(self).foyer matches Some(index) && index@ == if target_len < len {
                old(self).foyer->0@
            } else {
                old(self).foyer->0@.asked(key@, found_in(found))
            },
            match r {
                Ok(bytes) => {
                    &&& block_load_fault(found_bytes(found), len, target_len) is None
                    &&& found_bytes(found) == Some(bytes@)
                },
                Err(e) => block_load_fault(found_bytes(found), len, target_len) == Some(e),
            },
    {
        match self.foyer.take() {
            Some(mut index) => {
                let r = index.load_into_addr(key, found, len, target_len);
                self.foyer = Some(index);
                r
            },
            None => vstd::pervasive::unreached(),
        }
    }

    /// The backend was asked for a value: judges what it found, and cuts it into the chunks to copy.
    pub fn load_chunks_from_blocks<'a>(
        &mut self,
        key: &KvSsdKey,
        found: FoundValue<'a>,
        target_addr: u64,
        len: u64,
        target_len: u64,
        chunk_bytes: u64,
    ) -> (r: Result<(&'a [u8], Vec<ChunkRequest>), SsdError>)
        requires
            old(self).wf(),
            old(self).foyer is Some,
        ensures
            final(self).wf(),
            final(self).same_but_blocks(old(self)),
            final(self).foyer matches Some(index) && index@ == old(self).foyer->0@.asked_in_chunks(
                key@,
                found_in(found),
                len,
                target_len,
                chunk_bytes,
            ),
            block_chunked(
                found_bytes(found),
                target_addr,
                len,
                target_len,
                chunk_bytes,
                chunked(r),
            ),
    {
        match self.foyer.take() {
            Some(mut index) => {
                let r = index.load_into_addr_chunks(
                    key,
                    found,
                    target_addr,
                    len,
                    target_len,
                    chunk_bytes,
                );
                self.foyer = Some(index);
                r
            },
            None => vstd::pervasive::unreached(),
        }
    }
}

/// A store that does not take requests asks nothing of its backend, whatever is asked of it. One that does
/// hands all bytes on that have a key and are not empty, and asks for every value that has a key and room.
pub proof fn a_closed_store_asks_nothing_of_its_backend(
    store: KvSsdStorage,
    key: Seq<char>,
    len: u64,
    target_len: u64,
)
    ensures
        !store.admitting ==> store.block_request_fault(key, len, target_len) == Some(
            SsdError::SystemShutdown,
        ) && store.block_admission_fault(key, len) == Some(SsdError::SystemShutdown),
        store.block_request_fault(key, len, target_len) is None <==> store.admitting && key.len() > 0
            && target_len >= len,
        store.block_admission_fault(key, len) is None <==> store.admitting && key.len() > 0 && len
            > 0,
        store.admitting && key.len() == 0 ==> store.block_request_fault(key, len, target_len)
            == store.block_admission_fault(key, len),
{
}

/// The index, and the bytes that the backend keeps.
#[verifier::ext_equal]
pub struct BlockState {
    pub index: BlockIndexModel,
    pub kept: Map<KeyId, Seq<u8>>,
}

/// Something that happens to the store.
pub enum BlockOp {
    /// Bytes are handed to the backend.
    Persist { key: KeyId, data: Seq<u8> },
    /// The backend is asked for a value; it has it from `source`, if it has it.
    Load { key: KeyId, source: CacheSource, len: u64, target_len: u64 },
    /// The backend drops a value to make room.
    Drop { key: KeyId },
}

/// What the backend finds under a key: the bytes that it keeps.
pub open spec fn block_found(kept: Map<KeyId, Seq<u8>>, key: KeyId) -> Option<Seq<u8>> {
    if kept.contains_key(key) {
        Some(kept[key])
    } else {
        None
    }
}

/// Bytes are taken in: they are not refused, and their length is a number.
pub open spec fn taken_in(a: BlockState, key: KeyId, data: Seq<u8>) -> bool {
    &&& data.len() <= u64::MAX
    &&& a.index.persist_fault(key, data.len() as u64) is None
}

/// The state after something happened. The backend keeps what was taken in until it is dropped.
pub open spec fn after_block_op(a: BlockState, op: BlockOp) -> BlockState {
    match op {
        BlockOp::Persist { key, data } => if taken_in(a, key, data) {
            BlockState {
                index: a.index.stored(key, data.len() as u64),
                kept: a.kept.insert(key, data),
            }
        } else {
            a
        },
        BlockOp::Load { key, source, len, target_len } => BlockState {
            index: if target_len < len {
                a.index
            } else if a.kept.contains_key(key) {
                a.index.asked(key, Some(source))
            } else {
                a.index.asked(key, None)
            },
            ..a
        },
        BlockOp::Drop { key } => BlockState { kept: a.kept.remove(key), ..a },
    }
}

/// The state after a number of things happened.
pub open spec fn after_block_ops(a: BlockState, ops: Seq<BlockOp>) -> BlockState
    decreases ops.len(),
{
    if ops.len() == 0 {
        a
    } else {
        after_block_op(after_block_ops(a, ops.drop_last()), ops.last())
    }
}

/// The operation neither replaces nor drops the value of the key.
pub open spec fn leaves_alone(op: BlockOp, key: KeyId) -> bool {
    match op {
        BlockOp::Persist { key: k, .. } => k != key,
        BlockOp::Drop { key: k } => k != key,
        BlockOp::Load { .. } => true,
    }
}

proof fn lemma_kept(a: BlockState, ops: Seq<BlockOp>, key: KeyId)
    requires
        forall|i: int| 0 <= i < ops.len() ==> leaves_alone(#[trigger] ops[i], key),
    ensures
        block_found(after_block_ops(a, ops).kept, key) == block_found(a.kept, key),
    decreases ops.len(),
{
    if ops.len() > 0 {
        let rest = ops.drop_last();
        assert forall|i: int| 0 <= i < rest.len() implies leaves_alone(#[trigger] rest[i], key) by {
            assert(rest[i] == ops[i]);
        }
        lemma_kept(a, rest, key);
        assert(leaves_alone(ops[ops.len() - 1], key));
    }
}

/// A value of the block-cache backend that was persisted, and that the backend has not dropped since, is
/// loaded whole or not at all, whatever else happened: a target that is too small and a wrong length
/// are refused, and otherwise the bytes that are handed out are those that were persisted.
pub proof fn a_persisted_block_is_loaded(
    before: BlockState,
    key: KeyId,
    data: Seq<u8>,
    later: Seq<BlockOp>,
    len: u64,
    target_len: u64,
)
    requires
        taken_in(before, key, data),
        forall|i: int| 0 <= i < later.len() ==> leaves_alone(#[trigger] later[i], key),
    ensures
        ({
            let now = after_block_ops(
                after_block_op(before, BlockOp::Persist { key, data }),
                later,
            );
            let found = block_found(now.kept, key);
            let fault = block_load_fault(found, len, target_len);
            &&& found == Some(data)
            &&& fault == if target_len < len {
                Some(SsdError::InvalidArgument(ArgumentError::TargetTooSmall { len, target_len }))
            } else if len != data.len() {
                Some(
                    SsdError::InvalidArgument(
                        ArgumentError::StoredLengthMismatch {
                            stored_len: data.len() as u64,
                            requested_len: len,
                        },
                    ),
                )
            } else {
                None
            }
        }),
{
    lemma_kept(after_block_op(before, BlockOp::Persist { key, data }), later, key);
}

/// A value that was never persisted, or that the backend has dropped, is not found.
pub proof fn a_missing_block_is_not_found(
    before: BlockState,
    key: KeyId,
    later: Seq<BlockOp>,
    len: u64,
    target_len: u64,
)
    requires
        !before.kept.contains_key(key),
        forall|i: int|
            0 <= i < later.len() ==> !(#[trigger] later[i] matches BlockOp::Persist { key: k, .. } && k
                == key),
        len <= target_len,
    ensures
        block_load_fault(block_found(after_block_ops(before, later).kept, key), len, target_len)
            == Some(SsdError::KeyNotFound),
    decreases later.len(),
{
    if later.len() > 0 {
        let rest = later.drop_last();
        assert forall|i: int| 0 <= i < rest.len() implies !(
        #[trigger] rest[i] matches BlockOp::Persist { key: k, .. } && k == key) by {
            assert(rest[i] == later[i]);
        }
        a_missing_block_is_not_found(before, key, rest, len, target_len);
        assert(!(later[later.len() - 1] matches BlockOp::Persist { key: k, .. } && k == key));
    }
}

/// The index knows every value that the backend keeps, with its length.
pub open spec fn index_knows(a: BlockState) -> bool {
    forall|k: KeyId| #[trigger]
        a.kept.contains_key(k) ==> a.index.lengths.contains_key(k) && a.index.lengths[k]
            == a.kept[k].len()
}

/// Whatever happens, the index goes on knowing every value that the backend keeps, with its length.
pub proof fn the_index_knows_what_is_kept(before: BlockState, ops: Seq<BlockOp>)
    requires
        index_knows(before),
    ensures
        index_knows(after_block_ops(before, ops)),
    decreases ops.len(),
{
    if ops.len() > 0 {
        the_index_knows_what_is_kept(before, ops.drop_last());
        let a = after_block_ops(before, ops.drop_last());
        let b = after_block_op(a, ops.last());
        assert forall|k: KeyId| #[trigger] b.kept.contains_key(k) implies b.index.lengths.contains_key(
            k,
        ) && b.index.lengths[k] == b.kept[k].len() by {
            if a.kept.contains_key(k) {
            }
        }
    }
}

} // verus!
