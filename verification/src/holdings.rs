//! The values that completed gets hold on to.
use vstd::prelude::*;

use crate::assoc::{lemma_map_has_row, lemma_row_in_map, rows_map, rows_unique, AssocMap, MapKey};
use crate::ids::NodeID;
use crate::msg_pack::DeleteAckItem;
use crate::name_set::NameSet;
use crate::routes::Allocation;

verus! {

/// A node and the number of one of its holders.
#[derive(Debug)]
pub struct NodeHolderKey {
    pub node_id: String,
    pub holder_id: u64,
}

impl View for NodeHolderKey {
    type V = (Seq<char>, u64);

    open spec fn view(&self) -> (Seq<char>, u64) {
        (self.node_id@, self.holder_id)
    }
}

impl MapKey for NodeHolderKey {
    fn same(&self, other: &Self) -> (r: bool) {
        self.node_id == other.node_id && self.holder_id == other.holder_id
    }

    fn dup(&self) -> (r: Self) {
        NodeHolderKey { node_id: self.node_id.clone(), holder_id: self.holder_id }
    }
}

/// A value that has arrived and is held.
#[derive(Debug)]
pub struct OwnerHoldingGetInfo {
    pub key: String,
    pub holding_node_id: NodeID,
    pub len: u64,
    pub allocation: Allocation,
}

/// All values that are held.
pub struct GetHoldings {
    by_holder: AssocMap<NodeHolderKey, OwnerHoldingGetInfo>,
}

/// All values that are held, by node and holder.
pub type HoldingMap = Map<(Seq<char>, u64), OwnerHoldingGetInfo>;

impl View for GetHoldings {
    type V = HoldingMap;

    closed spec fn view(&self) -> HoldingMap {
        self.by_holder@
    }
}

/// What is held by other nodes.
pub open spec fn held_elsewhere(m: HoldingMap, node: Seq<char>) -> HoldingMap {
    Map::new(|h: (Seq<char>, u64)| m.contains_key(h) && h.0 != node, |h: (Seq<char>, u64)| m[h])
}

/// Some holder has the key.
pub open spec fn key_held(m: HoldingMap, key: Seq<char>) -> bool {
    exists|h: (Seq<char>, u64)| #[trigger] m.contains_key(h) && m[h].key@ == key
}

/// The number of acknowledgements that let a holder go: each holder goes once.
pub open spec fn acked(m: HoldingMap, acks: Seq<DeleteAckItem>) -> (HoldingMap, int)
    decreases acks.len(),
{
    if acks.len() == 0 {
        (m, 0)
    } else {
        let (before, n) = acked(m, acks.drop_last());
        let h = (acks.last().client_id@, acks.last().holder_id);
        if before.contains_key(h) {
            (before.remove(h), n + 1)
        } else {
            (before, n)
        }
    }
}

impl GetHoldings {
    pub closed spec fn wf(&self) -> bool {
        self.by_holder.wf()
    }

    pub fn new() -> (r: Self)
        ensures
            r.wf(),
            r@ == Map::<(Seq<char>, u64), OwnerHoldingGetInfo>::empty(),
    {
        GetHoldings { by_holder: AssocMap::new() }
    }

    /// A value is held from now on.
    pub fn insert(&mut self, key: NodeHolderKey, info: OwnerHoldingGetInfo)
        requires
            old(self).wf(),
        ensures
            final(self).wf(),
            final(self)@ == old(self)@.insert(key@, info),
    {
        self.by_holder.insert(key, info);
    }

    /// A holder lets go. Tells whether there was one.
    pub fn remove(&mut self, key: &NodeHolderKey) -> (r: bool)
        requires
            old(self).wf(),
        ensures
            final(self).wf(),
            r == old(self)@.contains_key(key@),
            final(self)@ == old(self)@.remove(key@),
    {
        self.by_holder.remove(key).is_some()
    }

    /// A node has left: it holds nothing any more. Returns the number of values that it held.
    pub fn cleanup_node(&mut self, node_id: &String) -> (r: usize)
        requires
            old(self).wf(),
        ensures
            final(self).wf(),
            final(self)@ == held_elsewhere(old(self)@, node_id@),
            final(self)@.dom().finite(),
            r == old(self)@.dom().len() - final(self)@.dom().len(),
    {
        let ghost start = self@;
        let before: usize = self.by_holder.len();
        let mut kept: AssocMap<NodeHolderKey, OwnerHoldingGetInfo> = AssocMap::new();
        let mut all: AssocMap<NodeHolderKey, OwnerHoldingGetInfo> = AssocMap::new();
        std::mem::swap(&mut self.by_holder, &mut all);
        proof {
            all.lemma_rows();
            all.lemma_dom();
        }
        let mut rows = all.into_rows();
        let ghost listed = rows@;
        while rows.len() > 0
            invariant
                kept.wf(),
                rows@ == listed.take(rows@.len() as int),
                rows@.len() <= listed.len(),
                rows_unique(listed),
                start == rows_map(listed),
                forall|h: (Seq<char>, u64)| #[trigger]
                    kept@.contains_key(h) ==> start.contains_key(h) && h.0 != node_id@ && kept@[h]
                        == start[h],
                forall|j: int|
                    rows@.len() <= j < listed.len() && (#[trigger] listed[j]).0@.0 != node_id@
                        ==> kept@.contains_key(listed[j].0@),
            decreases rows@.len(),
        {
            let ghost at = rows@.len() - 1;
            proof {
                lemma_row_in_map(listed, at);
            }
            if let Some((holder, info)) = rows.pop() {
                assert(listed[at] == (holder, info));
                if holder.node_id != *node_id {
                    kept.insert(holder, info);
                }
            }
            assert(rows@ =~= listed.take(at));
        }
        proof {
            assert forall|h: (Seq<char>, u64)| #[trigger]
                start.contains_key(h) && h.0 != node_id@ implies kept@.contains_key(h) by {
                let j = lemma_map_has_row(listed, h);
                assert(listed[j].0@ == h);
            }
            assert(kept@ =~= held_elsewhere(start, node_id@));
            kept.lemma_dom();
            assert(kept@.dom().subset_of(start.dom()));
            vstd::set_lib::lemma_len_subset(kept@.dom(), start.dom());
        }
        self.by_holder = kept;
        before - self.by_holder.len()
    }

    /// The keys that are held.
    pub fn held_keys(&self) -> (r: NameSet)
        requires
            self.wf(),
        ensures
            forall|k: Seq<char>| #[trigger] r@.contains(k) <==> key_held(self@, k),
    {
        let mut r = NameSet::new();
        let ghost rows = self.by_holder.rows();
        let mut i: usize = 0;
        while i < self.by_holder.len()
            invariant
                self.wf(),
                rows == self.by_holder.rows(),
                i <= rows.len(),
                forall|k: Seq<char>| #[trigger] r@.contains(k) ==> key_held(self@, k),
                forall|j: int| 0 <= j < i ==> r@.contains((#[trigger] rows[j]).1.key@),
            decreases rows.len() - i,
        {
            let row = self.by_holder.row(i);
            assert(self@.contains_key(row.0@) && self@[row.0@].key@ == row.1.key@);
            r.insert(row.1.key.clone());
            i += 1;
        }
        proof {
            self.by_holder.lemma_rows();
            assert forall|k: Seq<char>| key_held(self@, k) implies #[trigger] r@.contains(k) by {
                let h = choose|h: (Seq<char>, u64)| #[trigger]
                    self@.contains_key(h) && self@[h].key@ == k;
                let j = lemma_map_has_row(rows, h);
                assert(r@.contains(rows[j].1.key@));
            }
        }
        r
    }

    /// Whether some holder has the key.
    pub fn has_holder(&self, key: &String) -> (r: bool)
        requires
            self.wf(),
        ensures
            r == key_held(self@, key@),
    {
        let mut i: usize = 0;
        while i < self.by_holder.len()
            invariant
                self.wf(),
                i <= self.by_holder.rows().len(),
                forall|j: int|
                    0 <= j < i ==> (#[trigger] self.by_holder.rows()[j]).1.key@ != key@,
            decreases self.by_holder.rows().len() - i,
        {
            let row = self.by_holder.row(i);
            if row.1.key == *key {
                assert(self@.contains_key(row.0@));
                return true;
            }
            i += 1;
        }
        proof {
            self.by_holder.lemma_rows();
            assert forall|h: (Seq<char>, u64)| #[trigger]
                self@.contains_key(h) implies self@[h].key@ != key@ by {
                let j = lemma_map_has_row(self.by_holder.rows(), h);
            }
        }
        false
    }

    /// A client has dropped its copy of a deleted key.
    pub fn handle_delete_ack(&mut self, client_id: &String, holder_id: u64) -> (r: bool)
        requires
            old(self).wf(),
        ensures
            final(self).wf(),
            r == old(self)@.contains_key((client_id@, holder_id)),
            final(self)@ == old(self)@.remove((client_id@, holder_id)),
    {
        let key = NodeHolderKey { node_id: client_id.clone(), holder_id };
        self.remove(&key)
    }

    /// Clients have dropped their copies of deleted keys. Returns how many holders let go.
    pub fn handle_batch_delete_ack(&mut self, acks: &Vec<DeleteAckItem>) -> (deleted_count: u32)
        requires
            old(self).wf(),
            acks@.len() <= u32::MAX,
        ensures
            final(self).wf(),
            final(self)@ == acked(old(self)@, acks@).0,
            deleted_count == acked(old(self)@, acks@).1,
    {
        let mut deleted_count: u32 = 0;
        let mut i: usize = 0;
        assert(acks@.take(0) =~= Seq::empty());
        while i < acks.len()
            invariant
                self.wf(),
                i <= acks@.len() <= u32::MAX,
                deleted_count <= i,
                (self@, deleted_count as int) == acked(old(self)@, acks@.take(i as int)),
            decreases acks@.len() - i,
        {
            proof {
                assert(acks@.take(i + 1).drop_last() =~= acks@.take(i as int));
                assert(acks@.take(i + 1).last() == acks@[i as int]);
            }
            let ghost before = self@;
            if self.handle_delete_ack(&acks[i].client_id, acks[i].holder_id) {
                deleted_count = deleted_count + 1;
            } else {
                assert(self@ =~= before);
            }
            i += 1;
        }
        assert(acks@.take(acks@.len() as int) =~= acks@);
        deleted_count
    }
}

/// One of the acknowledgements is from the holder.
pub open spec fn acknowledged(acks: Seq<DeleteAckItem>, h: (Seq<char>, u64)) -> bool {
    exists|i: int|
        0 <= i < acks.len() && (#[trigger] acks[i]).client_id@ == h.0 && acks[i].holder_id == h.1
}

/// Exactly the holders that have acknowledged let go, and each that did counts once.
pub proof fn holders_let_go_when_they_acknowledge(m: HoldingMap, acks: Seq<DeleteAckItem>)
    requires
        m.dom().finite(),
    ensures
        acked(m, acks).0.dom().finite(),
        acked(m, acks).1 == m.dom().len() - acked(m, acks).0.dom().len(),
        forall|h: (Seq<char>, u64)| #[trigger]
            acked(m, acks).0.contains_key(h) <==> m.contains_key(h) && !acknowledged(acks, h),
        forall|h: (Seq<char>, u64)| #[trigger]
            acked(m, acks).0.contains_key(h) ==> acked(m, acks).0[h] == m[h],
    decreases acks.len(),
{
    if acks.len() > 0 {
        let less = acks.drop_last();
        holders_let_go_when_they_acknowledge(m, less);
        let last = (acks.last().client_id@, acks.last().holder_id);
        assert forall|h: (Seq<char>, u64)| #[trigger]
            acked(m, acks).0.contains_key(h) <==> m.contains_key(h) && !acknowledged(acks, h) by {
            if acknowledged(less, h) {
                let i = choose|i: int|
                    0 <= i < less.len() && (#[trigger] less[i]).client_id@ == h.0
                        && less[i].holder_id == h.1;
                assert(acks[i].client_id@ == h.0);
            }
            if acknowledged(acks, h) && !acknowledged(less, h) {
                let i = choose|i: int|
                    0 <= i < acks.len() && (#[trigger] acks[i]).client_id@ == h.0
                        && acks[i].holder_id == h.1;
                if i < less.len() {
                    assert(less[i].client_id@ == h.0);
                }
            }
            assert(acks[acks.len() - 1].client_id@ == last.0);
        }
    }
}

/// A holder that let go is not there any more, and every other one is.
pub proof fn letting_go_once_is_enough(m: HoldingMap, h: (Seq<char>, u64))
    ensures
        m.remove(h).remove(h) == m.remove(h),
{
    assert(m.remove(h).remove(h) =~= m.remove(h));
}

} // verus!
