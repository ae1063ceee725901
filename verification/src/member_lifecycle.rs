//! What is bound to one generation of a member: copies of values, and puts that are under way.
//!
//! When a member leaves, or comes back in a new generation, what was bound to the old generation is
//! handed out for cleanup, and nothing can be bound to it any more.
use vstd::prelude::*;

use crate::assoc::{lemma_map_has_row, lemma_row_in_map, rows_map, rows_unique, AssocMap, MapKey};
use crate::ids::PutIDForAKey;
use crate::key_table::KeyTable;
use crate::ssd_ring::KeyId;
use crate::tiered_routes::TieredKvRoutes;

verus! {

/// One version of one key.
#[derive(Debug)]
pub struct ReplicaIndexKey {
    pub key: String,
    pub put_id: PutIDForAKey,
}

impl View for ReplicaIndexKey {
    type V = KeyId;

    open spec fn view(&self) -> KeyId {
        (self.key@, self.put_id)
    }
}

impl MapKey for ReplicaIndexKey {
    fn same(&self, other: &Self) -> (r: bool) {
        self.key == other.key && self.put_id.0 == other.put_id.0 && self.put_id.1 == other.put_id.1
    }

    fn dup(&self) -> (r: Self) {
        ReplicaIndexKey { key: self.key.clone(), put_id: self.put_id }
    }
}

/// What is bound to a generation of a member. The numbers tell apart what was made for the same
/// version of a key.
pub struct MemberBucket {
    generation: i64,
    departed: bool,
    entries: AssocMap<ReplicaIndexKey, u64>,
}

/// What is bound to a generation of a member, as mathematical values.
#[verifier::ext_equal]
pub struct BucketModel {
    pub generation: i64,
    pub departed: bool,
    pub entries: Map<KeyId, u64>,
}

impl View for MemberBucket {
    type V = BucketModel;

    closed spec fn view(&self) -> BucketModel {
        BucketModel {
            generation: self.generation,
            departed: self.departed,
            entries: self.entries@,
        }
    }
}

/// What is bound to the members.
pub type MemberMap = Map<Seq<char>, BucketModel>;

/// Nothing is bound to the generation yet.
pub open spec fn fresh_bucket(generation: i64, departed: bool) -> BucketModel {
    BucketModel { generation, departed, entries: Map::empty() }
}

/// Something can be bound to this generation of the member.
pub open spec fn admits_member(m: MemberMap, member: Seq<char>, generation: i64) -> bool {
    m.contains_key(member) ==> !m[member].departed && m[member].generation == generation
}

/// The member, where it was not known, is known in this generation.
pub open spec fn ensured(m: MemberMap, member: Seq<char>, generation: i64) -> MemberMap {
    if m.contains_key(member) {
        m
    } else {
        m.insert(member, fresh_bucket(generation, false))
    }
}

/// One more thing is bound to the member.
pub open spec fn bound(m: MemberMap, member: Seq<char>, key: KeyId, id: u64) -> MemberMap {
    m.insert(
        member,
        BucketModel { entries: m[member].entries.insert(key, id), ..m[member] },
    )
}

/// Exactly this is bound to the member.
pub open spec fn is_bound(m: MemberMap, member: Seq<char>, key: KeyId, id: u64) -> bool {
    m.contains_key(member) && m[member].entries.contains_key(key) && m[member].entries[key] == id
}

/// Exactly this is bound to the current generation of the member.
pub open spec fn is_current(
    m: MemberMap,
    member: Seq<char>,
    generation: i64,
    key: KeyId,
    id: u64,
) -> bool {
    &&& is_bound(m, member, key, id)
    &&& !m[member].departed
    &&& m[member].generation == generation
}

/// One thing less is bound to the member.
pub open spec fn unbound(m: MemberMap, member: Seq<char>, key: KeyId) -> MemberMap {
    m.insert(
        member,
        BucketModel { entries: m[member].entries.remove(key), ..m[member] },
    )
}

/// Something was bound to a generation of a member, if that is the current one.
pub open spec fn bound_if_active(
    m: MemberMap,
    member: Seq<char>,
    generation: i64,
    key: KeyId,
    id: u64,
    r: bool,
    after: MemberMap,
) -> bool {
    &&& r == admits_member(m, member, generation)
    &&& after == if r {
        bound(ensured(m, member, generation), member, key, id)
    } else {
        m
    }
}

/// The members after exactly this is not bound to one of them any more, in the generation if one is given.
pub open spec fn unbound_from(
    m: MemberMap,
    member: Seq<char>,
    generation: Option<i64>,
    key: KeyId,
    id: u64,
) -> MemberMap {
    if is_bound(m, member, key, id) && (generation matches Some(g) ==> m[member].generation == g) {
        unbound(m, member, key)
    } else {
        m
    }
}

/// The list holds the entries, each once.
pub open spec fn lists(rows: Seq<(ReplicaIndexKey, u64)>, entries: Map<KeyId, u64>) -> bool {
    rows_unique(rows) && rows_map(rows) == entries
}

/// The members with what is bound to them after a member was seen in a generation.
pub open spec fn after_present(m: MemberMap, member: Seq<char>, generation: i64) -> MemberMap {
    if !m.contains_key(member) {
        m.insert(member, fresh_bucket(generation, false))
    } else if m[member].generation == generation {
        m.insert(member, BucketModel { departed: false, ..m[member] })
    } else {
        m.insert(member, fresh_bucket(generation, false))
    }
}

/// What was bound to the generation before, when a member is seen in a new one.
pub open spec fn displaced_by(m: MemberMap, member: Seq<char>, generation: i64) -> Map<KeyId, u64> {
    if m.contains_key(member) && m[member].generation != generation {
        m[member].entries
    } else {
        Map::empty()
    }
}

/// The members with what is bound to them after a generation of a member has left.
pub open spec fn after_absent(m: MemberMap, member: Seq<char>, generation: i64) -> MemberMap {
    if !m.contains_key(member) || m[member].generation == generation {
        m.insert(member, fresh_bucket(generation, true))
    } else {
        m
    }
}

/// What was bound to a generation of a member that has left.
pub open spec fn drained_by(m: MemberMap, member: Seq<char>, generation: i64) -> Map<KeyId, u64> {
    if m.contains_key(member) && m[member].generation == generation {
        m[member].entries
    } else {
        Map::empty()
    }
}

/// What is bound to all members.
pub struct MemberIndex {
    by_member: KeyTable<MemberBucket>,
}

impl View for MemberIndex {
    type V = MemberMap;

    closed spec fn view(&self) -> MemberMap {
        Map::new(
            |k: Seq<char>| self.by_member@.contains_key(k),
            |k: Seq<char>| self.by_member@[k]@,
        )
    }
}

impl MemberIndex {
    pub closed spec fn wf(&self) -> bool {
        &&& self.by_member.wf()
        &&& forall|k: Seq<char>| #[trigger]
            self.by_member@.contains_key(k) ==> self.by_member@[k].entries.wf()
    }

    pub fn new() -> (r: Self)
        ensures
            r.wf(),
            r@ == Map::<Seq<char>, BucketModel>::empty(),
    {
        let r = MemberIndex { by_member: KeyTable::new() };
        assert(r@ =~= Map::<Seq<char>, BucketModel>::empty());
        r
    }

    /// Takes what is bound to a member out.
    fn take(&mut self, member: &str) -> (r: Option<MemberBucket>)
        requires
            old(self).wf(),
        ensures
            final(self).wf(),
            final(self)@ == old(self)@.remove(member@),
            match r {
                Some(bucket) => old(self)@.contains_key(member@) && bucket@ == old(self)@[member@]
                    && bucket.entries.wf(),
                None => !old(self)@.contains_key(member@),
            },
    {
        let ghost before = self.by_member@;
        let r = self.by_member.remove(member);
        proof {
            assert(self@ =~= old(self)@.remove(member@));
            assert forall|k: Seq<char>| #[trigger]
                self.by_member@.contains_key(k) implies self.by_member@[k].entries.wf() by {
                assert(before.contains_key(k));
            }
            if before.contains_key(member@) {
                assert(before[member@].entries.wf());
            }
        }
        r
    }

    /// Puts what is bound to a member in.
    fn put(&mut self, member: &str, bucket: MemberBucket)
        requires
            old(self).wf(),
            bucket.entries.wf(),
        ensures
            final(self).wf(),
            final(self)@ == old(self)@.insert(member@, bucket@),
    {
        let ghost before = self.by_member@;
        self.by_member.insert(member.to_owned(), bucket);
        proof {
            assert(self@ =~= old(self)@.insert(member@, bucket@));
            assert forall|k: Seq<char>| #[trigger]
                self.by_member@.contains_key(k) implies self.by_member@[k].entries.wf() by {
                if k != member@ {
                    assert(before.contains_key(k));
                }
            }
        }
    }

    /// A member is seen in a generation. What was bound to another generation is handed out.
    pub fn observe_present(&mut self, member: &str, generation: i64) -> (r: Vec<
        (ReplicaIndexKey, u64),
    >)
        requires
            old(self).wf(),
        ensures
            final(self).wf(),
            final(self)@ == after_present(old(self)@, member@, generation),
            lists(r@, displaced_by(old(self)@, member@, generation)),
    {
        let ghost before = self@;
        match self.take(member) {
            None => {
                let none: Vec<(ReplicaIndexKey, u64)> = Vec::new();
                self.put(
                    member,
                    MemberBucket { generation, departed: false, entries: AssocMap::new() },
                );
                proof {
                    lemma_lists_nothing(none@);
                    assert(before.remove(member@).insert(member@, fresh_bucket(generation, false))
                        =~= before.insert(member@, fresh_bucket(generation, false)));
                }
                none
            },
            Some(bucket) => {
                if bucket.generation == generation {
                    let none: Vec<(ReplicaIndexKey, u64)> = Vec::new();
                    self.put(
                        member,
                        MemberBucket { generation, departed: false, entries: bucket.entries },
                    );
                    proof {
                        lemma_lists_nothing(none@);
                        let same = BucketModel { departed: false, ..before[member@] };
                        assert(before.remove(member@).insert(member@, same) =~= before.insert(
                            member@,
                            same,
                        ));
                    }
                    return none;
                }
                self.put(
                    member,
                    MemberBucket { generation, departed: false, entries: AssocMap::new() },
                );
                proof {
                    bucket.entries.lemma_rows();
                    assert(before.remove(member@).insert(member@, fresh_bucket(generation, false))
                        =~= before.insert(member@, fresh_bucket(generation, false)));
                }
                bucket.entries.into_rows()
            },
        }
    }

    /// A generation of a member has left. What was bound to it is handed out, and nothing can be
    /// bound to it any more. News of another generation than the current one changes nothing.
    pub fn mark_absent(&mut self, member: &str, generation: i64) -> (r: Vec<(ReplicaIndexKey, u64)>)
        requires
            old(self).wf(),
        ensures
            final(self).wf(),
            final(self)@ == after_absent(old(self)@, member@, generation),
            lists(r@, drained_by(old(self)@, member@, generation)),
    {
        let ghost before = self@;
        match self.take(member) {
            None => {
                let none: Vec<(ReplicaIndexKey, u64)> = Vec::new();
                self.put(
                    member,
                    MemberBucket { generation, departed: true, entries: AssocMap::new() },
                );
                proof {
                    lemma_lists_nothing(none@);
                    assert(before.remove(member@).insert(member@, fresh_bucket(generation, true))
                        =~= before.insert(member@, fresh_bucket(generation, true)));
                }
                none
            },
            Some(bucket) => {
                if bucket.generation != generation {
                    let none: Vec<(ReplicaIndexKey, u64)> = Vec::new();
                    self.put(member, bucket);
                    proof {
                        lemma_lists_nothing(none@);
                        assert(before.remove(member@).insert(member@, before[member@])
                            =~= before);
                    }
                    return none;
                }
                self.put(
                    member,
                    MemberBucket { generation, departed: true, entries: AssocMap::new() },
                );
                proof {
                    bucket.entries.lemma_rows();
                    assert(before.remove(member@).insert(member@, fresh_bucket(generation, true))
                        =~= before.insert(member@, fresh_bucket(generation, true)));
                }
                bucket.entries.into_rows()
            },
        }
    }

    /// Binds something to a generation of a member, if that is the current one. A member that is
    /// not known becomes known in this generation.
    pub fn register_if_active(
        &mut self,
        member: &str,
        generation: i64,
        key: &ReplicaIndexKey,
        id: u64,
    ) -> (r: bool)
        requires
            old(self).wf(),
        ensures
            final(self).wf(),
            r == admits_member(old(self)@, member@, generation),
            final(self)@ == if r {
                bound(ensured(old(self)@, member@, generation), member@, key@, id)
            } else {
                old(self)@
            },
    {
        let ghost before = self@;
        match self.take(member) {
            None => {
                let mut entries: AssocMap<ReplicaIndexKey, u64> = AssocMap::new();
                entries.insert(key.dup(), id);
                self.put(member, MemberBucket { generation, departed: false, entries });
                proof {
                    let e = ensured(before, member@, generation);
                    assert(self@ =~= bound(e, member@, key@, id));
                }
                true
            },
            Some(mut bucket) => {
                if bucket.departed || bucket.generation != generation {
                    self.put(member, bucket);
                    assert(before.remove(member@).insert(member@, before[member@]) =~= before);
                    return false;
                }
                bucket.entries.insert(key.dup(), id);
                self.put(member, bucket);
                assert(self@ =~= bound(before, member@, key@, id));
                true
            },
        }
    }

    /// Whether exactly this is bound to the current generation of a member.
    pub fn contains_current(
        &self,
        member: &str,
        generation: i64,
        key: &ReplicaIndexKey,
        id: u64,
    ) -> (r: bool)
        requires
            self.wf(),
        ensures
            r == is_current(self@, member@, generation, key@, id),
    {
        match self.by_member.get(member) {
            None => false,
            Some(bucket) => {
                assert(self@.contains_key(member@));
                !bucket.departed && bucket.generation == generation && match bucket.entries.get(
                    key,
                ) {
                    Some(current) => *current == id,
                    None => false,
                }
            },
        }
    }

    /// Unbinds something from a member, if exactly this is bound to it, and to this generation where
    /// one is given.
    pub fn unregister(
        &mut self,
        member: &str,
        generation: Option<i64>,
        key: &ReplicaIndexKey,
        id: u64,
    )
        requires
            old(self).wf(),
        ensures
            final(self).wf(),
            final(self)@ == unbound_from(old(self)@, member@, generation, key@, id),
    {
        let ghost before = self@;
        match self.take(member) {
            None => {
                assert(before.remove(member@) =~= before);
            },
            Some(mut bucket) => {
                let here = match generation {
                    Some(g) => bucket.generation == g,
                    None => true,
                };
                let same = match bucket.entries.get(key) {
                    Some(current) => *current == id,
                    None => false,
                };
                if here && same {
                    bucket.entries.remove(key);
                    self.put(member, bucket);
                    assert(self@ =~= unbound(before, member@, key@));
                } else {
                    self.put(member, bucket);
                    assert(before.remove(member@).insert(member@, before[member@]) =~= before);
                }
            },
        }
    }
}

proof fn lemma_lists_nothing(rows: Seq<(ReplicaIndexKey, u64)>)
    requires
        rows.len() == 0,
    ensures
        lists(rows, Map::<KeyId, u64>::empty()),
{
    assert(rows_map(rows) =~= Map::<KeyId, u64>::empty());
}

/// After a generation has left, nothing can be bound to it, and what was bound to it is handed out.
pub proof fn departure_drains_and_rejects(m: MemberMap, member: Seq<char>, generation: i64)
    requires
        m.contains_key(member) ==> m[member].generation == generation,
    ensures
        !admits_member(after_absent(m, member, generation), member, generation),
        after_absent(m, member, generation)[member].entries == Map::<KeyId, u64>::empty(),
        m.contains_key(member) ==> drained_by(m, member, generation) == m[member].entries,
{
}

/// Late news that an old generation has left does not touch the new one.
pub proof fn stale_absence_changes_nothing(m: MemberMap, member: Seq<char>, old_gen: i64, new_gen: i64)
    requires
        old_gen != new_gen,
    ensures
        ({
            let now = after_present(m, member, new_gen);
            &&& after_absent(now, member, old_gen) == now
            &&& drained_by(now, member, old_gen) == Map::<KeyId, u64>::empty()
            &&& admits_member(now, member, new_gen)
        }),
{
}

/// Something is bound to a member that is there in the generation, or that was not known yet, and to no
/// other; it is then bound to the current generation. What else is bound stays bound.
pub proof fn only_the_current_generation_takes_more(
    m: MemberMap,
    member: Seq<char>,
    generation: i64,
    key: KeyId,
    id: u64,
    r: bool,
    after: MemberMap,
    other: Seq<char>,
    k: KeyId,
)
    requires
        bound_if_active(m, member, generation, key, id, r, after),
    ensures
        m.contains_key(member) && m[member].departed ==> !r,
        m.contains_key(member) && m[member].generation != generation ==> !r,
        m.contains_key(member) && !m[member].departed && m[member].generation == generation ==> r,
        !m.contains_key(member) ==> r,
        !r ==> after == m,
        r ==> is_current(after, member, generation, key, id),
        other != member ==> (after.contains_key(other) <==> m.contains_key(other)) && after[other]
            == m[other],
        m.contains_key(member) && k != key ==> (after[member].entries.contains_key(k)
            <==> m[member].entries.contains_key(k)) && after[member].entries[k]
            == m[member].entries[k],
        !m.contains_key(member) && k != key ==> !after[member].entries.contains_key(k),
{
}

/// Exactly what is meant is unbound: nothing that was bound since under another number, and nothing of
/// another generation.
pub proof fn only_what_is_meant_is_unbound(
    m: MemberMap,
    member: Seq<char>,
    generation: Option<i64>,
    key: KeyId,
    id: u64,
    other: Seq<char>,
    k: KeyId,
)
    ensures
        ({
            let after = unbound_from(m, member, generation, key, id);
            &&& generation is None ==> !is_bound(after, member, key, id)
            &&& m.contains_key(member) && generation == Some(m[member].generation) ==> !is_bound(
                after,
                member,
                key,
                id,
            )
            &&& m.contains_key(member) && generation is Some && generation->0 != m[member].generation
                ==> after == m
            &&& m.contains_key(member) && m[member].entries.contains_key(key)
                && m[member].entries[key] != id ==> after == m
            &&& other != member ==> (after.contains_key(other) <==> m.contains_key(other))
                && after[other] == m[other]
            &&& k != key && m.contains_key(member) ==> (after[member].entries.contains_key(k)
                <==> m[member].entries.contains_key(k)) && after[member].entries[k]
                == m[member].entries[k]
            &&& after.contains_key(member) <==> m.contains_key(member)
            &&& m.contains_key(member) ==> after[member].generation == m[member].generation
                && after[member].departed == m[member].departed
        }),
{
}

/// A member that was restarted begins with nothing bound to it, and what was bound before is handed out;
/// one that is seen again in its generation keeps all, and is there again if it had left.
pub proof fn a_restart_displaces_what_was_bound(m: MemberMap, member: Seq<char>, generation: i64)
    ensures
        ({
            let after = after_present(m, member, generation);
            let handed = displaced_by(m, member, generation);
            &&& after.contains_key(member)
            &&& after[member].generation == generation
            &&& !after[member].departed
            &&& m.contains_key(member) && m[member].generation != generation ==> handed
                == m[member].entries && after[member].entries.dom() == Set::<KeyId>::empty()
            &&& m.contains_key(member) && m[member].generation == generation ==> handed.dom() == Set::<
                KeyId,
            >::empty() && after[member].entries == m[member].entries
            &&& !m.contains_key(member) ==> handed.dom() == Set::<KeyId>::empty()
                && after[member].entries.dom() == Set::<KeyId>::empty()
        }),
{
    assert(Map::<KeyId, u64>::empty().dom() =~= Set::<KeyId>::empty());
}

/// Members are independent of each other.
pub proof fn other_members_are_untouched(
    m: MemberMap,
    member: Seq<char>,
    generation: i64,
    other: Seq<char>,
)
    requires
        other != member,
        m.contains_key(other),
    ensures
        after_present(m, member, generation).contains_key(other),
        after_present(m, member, generation)[other] == m[other],
        after_absent(m, member, generation).contains_key(other),
        after_absent(m, member, generation)[other] == m[other],
{
}

/// The copies of values by member.
pub struct MemberReplicaIndex {
    pub index: MemberIndex,
}

/// A copy that was bound to a generation of a member.
#[derive(Debug)]
pub struct IndexedReplica {
    pub key: String,
    pub put_id: PutIDForAKey,
    pub generation: i64,
    pub route_id: u64,
}

/// The copies are those of the list.
pub open spec fn indexed_from(
    r: Seq<IndexedReplica>,
    entries: Map<KeyId, u64>,
    generation: i64,
) -> bool {
    &&& forall|i: int|
        0 <= i < r.len() ==> {
            let k = ((#[trigger] r[i]).key@, r[i].put_id);
            entries.contains_key(k) && entries[k] == r[i].route_id && r[i].generation == generation
        }
    &&& forall|k: KeyId| #[trigger]
        entries.contains_key(k) ==> exists|i: int|
            0 <= i < r.len() && ((#[trigger] r[i]).key@, r[i].put_id) == k
    &&& forall|i: int, j: int|
        0 <= i < r.len() && 0 <= j < r.len() && i != j ==> ((#[trigger] r[i]).key@, r[i].put_id)
            != ((#[trigger] r[j]).key@, r[j].put_id)
}

fn indexed_replicas(rows: Vec<(ReplicaIndexKey, u64)>, generation: i64) -> (r: Vec<IndexedReplica>)
    requires
        rows_unique(rows@),
    ensures
        indexed_from(r@, rows_map(rows@), generation),
        r@.len() == rows@.len(),
{
    let mut r: Vec<IndexedReplica> = Vec::new();
    let mut i: usize = 0;
    while i < rows.len()
        invariant
            i <= rows@.len(),
            r@.len() == i,
            forall|j: int|
                0 <= j < i ==> {
                    &&& (#[trigger] r@[j]).key@ == rows@[j].0@.0
                    &&& r@[j].put_id == rows@[j].0@.1
                    &&& r@[j].route_id == rows@[j].1
                    &&& r@[j].generation == generation
                },
        decreases rows@.len() - i,
    {
        let row = &rows[i];
        r.push(
            IndexedReplica {
                key: row.0.key.clone(),
                put_id: row.0.put_id,
                generation,
                route_id: row.1,
            },
        );
        i += 1;
    }
    proof {
        assert forall|i: int| 0 <= i < r@.len() implies {
            let k = ((#[trigger] r@[i]).key@, r@[i].put_id);
            rows_map(rows@).contains_key(k) && rows_map(rows@)[k] == r@[i].route_id
                && r@[i].generation == generation
        } by {
            lemma_row_in_map(rows@, i);
            assert(rows@[i].0@ == (r@[i].key@, r@[i].put_id));
        }
        assert forall|k: KeyId| #[trigger] rows_map(rows@).contains_key(k) implies exists|i: int|
            0 <= i < r@.len() && ((#[trigger] r@[i]).key@, r@[i].put_id) == k by {
            let j = lemma_map_has_row(rows@, k);
            assert((r@[j].key@, r@[j].put_id) == k);
        }
        assert forall|i: int, j: int|
            0 <= i < r@.len() && 0 <= j < r@.len() && i != j implies ((#[trigger] r@[i]).key@,
        r@[i].put_id) != ((#[trigger] r@[j]).key@, r@[j].put_id) by {
            assert(rows@[i].0@ != rows@[j].0@);
        }
    }
    r
}

impl MemberReplicaIndex {
    pub fn new() -> (r: Self)
        ensures
            r.index.wf(),
            r.index@ == Map::<Seq<char>, BucketModel>::empty(),
    {
        MemberReplicaIndex { index: MemberIndex::new() }
    }

    /// A member is seen in a generation; the copies of another generation are handed out.
    pub fn observe_present(&mut self, node_id: &str, generation: i64) -> (r: Vec<IndexedReplica>)
        requires
            old(self).index.wf(),
        ensures
            final(self).index.wf(),
            final(self).index@ == after_present(old(self).index@, node_id@, generation),
            ({
                let displaced = displaced_by(old(self).index@, node_id@, generation);
                displaced != Map::<KeyId, u64>::empty() ==> indexed_from(
                    r@,
                    displaced,
                    old(self).index@[node_id@].generation,
                )
            }),
            displaced_by(old(self).index@, node_id@, generation) == Map::<KeyId, u64>::empty()
                ==> r@.len() == 0,
    {
        let ghost before = self.index@;
        let old_generation: i64 = match self.index.by_member.get(node_id) {
            Some(bucket) => bucket.generation,
            None => generation,
        };
        let rows = self.index.observe_present(node_id, generation);
        proof {
            if rows@.len() > 0 {
                lemma_row_in_map(rows@, 0);
                assert(rows_map(rows@).contains_key(rows@[0].0@));
            }
        }
        indexed_replicas(rows, old_generation)
    }

    /// Binds a copy to a generation of a member, if that is the current one.
    pub fn register_if_active(
        &mut self,
        node_id: &str,
        generation: i64,
        key: &str,
        route: &TieredKvRoutes,
    ) -> (r: bool)
        requires
            old(self).index.wf(),
        ensures
            final(self).index.wf(),
            bound_if_active(
                old(self).index@,
                node_id@,
                generation,
                (key@, route.put_id),
                route.route_id,
                r,
                final(self).index@,
            ),
    {
        let index_key = ReplicaIndexKey { key: key.to_owned(), put_id: route.put_id };
        self.index.register_if_active(node_id, generation, &index_key, route.route_id)
    }

    pub fn contains_current(
        &self,
        node_id: &str,
        generation: i64,
        key: &str,
        route: &TieredKvRoutes,
    ) -> (r: bool)
        requires
            self.index.wf(),
        ensures
            r == is_current(
                self.index@,
                node_id@,
                generation,
                (key@, route.put_id),
                route.route_id,
            ),
    {
        let index_key = ReplicaIndexKey { key: key.to_owned(), put_id: route.put_id };
        self.index.contains_current(node_id, generation, &index_key, route.route_id)
    }

    /// Unbinds exactly this copy from this generation of a member.
    pub fn remove_current(
        &mut self,
        node_id: &str,
        generation: i64,
        key: &str,
        route: &TieredKvRoutes,
    )
        requires
            old(self).index.wf(),
        ensures
            final(self).index.wf(),
            final(self).index@ == unbound_from(
                old(self).index@,
                node_id@,
                Some(generation),
                (key@, route.put_id),
                route.route_id,
            ),
    {
        let index_key = ReplicaIndexKey { key: key.to_owned(), put_id: route.put_id };
        self.index.unregister(node_id, Some(generation), &index_key, route.route_id);
    }

    /// A generation of a member has left; its copies are handed out.
    pub fn mark_absent(&mut self, node_id: &str, generation: i64) -> (r: Vec<IndexedReplica>)
        requires
            old(self).index.wf(),
        ensures
            final(self).index.wf(),
            final(self).index@ == after_absent(old(self).index@, node_id@, generation),
            indexed_from(r@, drained_by(old(self).index@, node_id@, generation), generation),
    {
        let rows = self.index.mark_absent(node_id, generation);
        indexed_replicas(rows, generation)
    }
}

} // verus!
