//! Puts that are under way, and the members that take part in them.
use vstd::prelude::*;

use crate::ids::NodeID;
use crate::member_lifecycle::{
    admits_member, after_absent, after_present, bound, displaced_by, drained_by, ensured, is_bound,
    is_current, lists, unbound, BucketModel, MemberIndex, MemberMap, ReplicaIndexKey,
};
use crate::routes::{Allocation, CommittedSlotReplica};
use crate::ssd_ring::KeyId;

verus! {

/// The memory of a put that is under way.
#[derive(Debug)]
pub enum InflightPutAllocation {
    /// The bytes stay where they were staged.
    Local(Allocation),
    /// The bytes are staged on one node and go to another.
    Remote { src: Allocation, target: Allocation },
    /// The bytes are in a slot of granted memory already.
    LocalCommittedSlot(CommittedSlotReplica),
}

/// A put that is under way. The number tells apart puts that were begun for the same version.
#[derive(Debug)]
pub struct InflightPutInfo {
    pub info_id: u64,
    pub target_node_id: NodeID,
    pub source_node_id: NodeID,
    pub key: String,
    pub req_node_id: NodeID,
    pub target_generation: i64,
    pub source_generation: i64,
    pub requester_generation: i64,
    pub len: u64,
    pub persist_to_ssd: bool,
    pub allocation: Option<InflightPutAllocation>,
}

/// A member that takes part in a put, in one of its generations.
#[derive(Debug)]
pub struct PutParticipant {
    pub member_id: String,
    pub generation: i64,
}

/// The members of a list with their generations.
pub open spec fn members_of(ps: Seq<PutParticipant>) -> Seq<(Seq<char>, i64)> {
    Seq::new(ps.len(), |i: int| (ps[i].member_id@, ps[i].generation))
}

/// No member is listed twice.
pub open spec fn distinct(ps: Seq<(Seq<char>, i64)>) -> bool {
    forall|i: int, j: int|
        0 <= i < ps.len() && 0 <= j < ps.len() && i != j ==> (#[trigger] ps[i]).0 != (
        #[trigger] ps[j]).0
}

impl InflightPutInfo {
    /// The members that take part: who asks, who has the bytes, and who gets them, each once.
    pub open spec fn participants_model(&self) -> Seq<(Seq<char>, i64)> {
        let requester = seq![(self.req_node_id@, self.requester_generation)];
        let with_source = if self.source_node_id@ == self.req_node_id@ {
            requester
        } else {
            requester.push((self.source_node_id@, self.source_generation))
        };
        if self.target_node_id@ == self.req_node_id@ || self.target_node_id@
            == self.source_node_id@ {
            with_source
        } else {
            with_source.push((self.target_node_id@, self.target_generation))
        }
    }

    pub fn participants(&self) -> (r: Vec<PutParticipant>)
        ensures
            members_of(r@) == self.participants_model(),
            distinct(members_of(r@)),
    {
        let mut r: Vec<PutParticipant> = Vec::new();
        r.push(
            PutParticipant {
                member_id: self.req_node_id.clone(),
                generation: self.requester_generation,
            },
        );
        if self.source_node_id != self.req_node_id {
            r.push(
                PutParticipant {
                    member_id: self.source_node_id.clone(),
                    generation: self.source_generation,
                },
            );
        }
        if self.target_node_id != self.req_node_id && self.target_node_id != self.source_node_id {
            r.push(
                PutParticipant {
                    member_id: self.target_node_id.clone(),
                    generation: self.target_generation,
                },
            );
        }
        assert(members_of(r@) =~= self.participants_model());
        r
    }
}

/// The members after the first `i` participants are known, and the put is bound to those from the
/// `j`-th on.
pub open spec fn bound_range(
    m: MemberMap,
    ps: Seq<(Seq<char>, i64)>,
    j: int,
    i: int,
    key: KeyId,
    id: u64,
) -> MemberMap
    decreases i,
{
    if i <= 0 {
        m
    } else {
        let known = ensured(bound_range(m, ps, j, i - 1, key, id), ps[i - 1].0, ps[i - 1].1);
        if i - 1 >= j {
            bound(known, ps[i - 1].0, key, id)
        } else {
            known
        }
    }
}

/// The put is not bound to the member.
pub open spec fn not_bound(m: MemberMap, member: Seq<char>, key: KeyId) -> bool {
    m.contains_key(member) ==> !m[member].entries.contains_key(key)
}

proof fn lemma_range_elsewhere(
    m: MemberMap,
    ps: Seq<(Seq<char>, i64)>,
    j: int,
    i: int,
    key: KeyId,
    id: u64,
    member: Seq<char>,
)
    requires
        0 <= i <= ps.len(),
        forall|h: int| 0 <= h < i ==> (#[trigger] ps[h]).0 != member,
    ensures
        bound_range(m, ps, j, i, key, id).contains_key(member) == m.contains_key(member),
        m.contains_key(member) ==> bound_range(m, ps, j, i, key, id)[member] == m[member],
    decreases i,
{
    if i > 0 {
        lemma_range_elsewhere(m, ps, j, i - 1, key, id, member);
        assert(ps[i - 1].0 != member);
    }
}

proof fn lemma_range_known(
    m: MemberMap,
    ps: Seq<(Seq<char>, i64)>,
    j: int,
    i: int,
    key: KeyId,
    id: u64,
    h: int,
)
    requires
        0 <= h < i <= ps.len(),
    ensures
        bound_range(m, ps, j, i, key, id).contains_key(ps[h].0),
    decreases i,
{
    if h < i - 1 {
        lemma_range_known(m, ps, j, i - 1, key, id, h);
    }
}

/// Binding from `j` or from `j + 1` on is the same before the `j`-th participant.
proof fn lemma_range_shift(
    m: MemberMap,
    ps: Seq<(Seq<char>, i64)>,
    j: int,
    i: int,
    key: KeyId,
    id: u64,
)
    requires
        0 <= i <= j,
    ensures
        bound_range(m, ps, j, i, key, id) == bound_range(m, ps, j + 1, i, key, id),
    decreases i,
{
    if i > 0 {
        lemma_range_shift(m, ps, j, i - 1, key, id);
    }
}

/// Unbinding the put from the `j`-th participant leaves it bound to those behind.
proof fn lemma_range_unbind(
    m: MemberMap,
    ps: Seq<(Seq<char>, i64)>,
    j: int,
    i: int,
    key: KeyId,
    id: u64,
)
    requires
        0 <= j < i <= ps.len(),
        distinct(ps),
        not_bound(m, ps[j].0, key),
    ensures
        is_bound(bound_range(m, ps, j, i, key, id), ps[j].0, key, id),
        unbound(bound_range(m, ps, j, i, key, id), ps[j].0, key) == bound_range(
            m,
            ps,
            j + 1,
            i,
            key,
            id,
        ),
    decreases i,
{
    let member = ps[j].0;
    let whole = bound_range(m, ps, j, i, key, id);
    if i == j + 1 {
        let before = bound_range(m, ps, j, j, key, id);
        lemma_range_shift(m, ps, j, j, key, id);
        assert forall|h: int| 0 <= h < j implies (#[trigger] ps[h]).0 != member by {
            assert(ps[h].0 != ps[j].0);
        }
        lemma_range_elsewhere(m, ps, j, j, key, id, member);
        let known = ensured(before, member, ps[j].1);
        assert(!known[member].entries.contains_key(key));
        assert(known[member].entries.insert(key, id).remove(key) =~= known[member].entries);
        assert(unbound(whole, member, key) =~= known);
    } else {
        lemma_range_unbind(m, ps, j, i - 1, key, id);
        let a = bound_range(m, ps, j, i - 1, key, id);
        let b = bound_range(m, ps, j + 1, i - 1, key, id);
        let last = ps[i - 1].0;
        assert(last != member) by {
            assert(ps[i - 1].0 != ps[j].0);
        }
        assert(unbound(a, member, key) == b);
        assert(unbound(whole, member, key) =~= bound_range(m, ps, j + 1, i, key, id));
    }
}

/// The puts that are under way, by member.
pub struct MemberInflightPutIndex {
    pub index: MemberIndex,
}

/// All participants can take part.
pub open spec fn all_admitted(m: MemberMap, ps: Seq<(Seq<char>, i64)>, n: int) -> bool {
    forall|i: int| 0 <= i < n ==> admits_member(m, (#[trigger] ps[i]).0, ps[i].1)
}

/// The members after a put is no longer bound to the first `n` participants.
pub open spec fn unbound_all(
    m: MemberMap,
    ps: Seq<(Seq<char>, i64)>,
    n: int,
    key: KeyId,
    id: u64,
) -> MemberMap
    decreases n,
{
    if n <= 0 {
        m
    } else {
        let before = unbound_all(m, ps, n - 1, key, id);
        if is_bound(before, ps[n - 1].0, key, id) {
            unbound(before, ps[n - 1].0, key)
        } else {
            before
        }
    }
}

impl MemberInflightPutIndex {
    pub fn new() -> (r: Self)
        ensures
            r.index.wf(),
            r.index@ == Map::<Seq<char>, BucketModel>::empty(),
    {
        MemberInflightPutIndex { index: MemberIndex::new() }
    }

    /// Binds a put to all its participants, or, if one of them is gone or has been restarted, to
    /// none.
    pub fn register_if_active(&mut self, key: &ReplicaIndexKey, info: &InflightPutInfo) -> (r: bool)
        requires
            old(self).index.wf(),
            forall|i: int|
                0 <= i < info.participants_model().len() ==> not_bound(
                    old(self).index@,
                    (#[trigger] info.participants_model()[i]).0,
                    key@,
                ),
        ensures
            final(self).index.wf(),
            ({
                let m = old(self).index@;
                let ps = info.participants_model();
                let n = ps.len() as int;
                &&& r == all_admitted(m, ps, n)
                &&& r ==> final(self).index@ == bound_range(m, ps, 0, n, key@, info.info_id)
                &&& !r ==> exists|i: int|
                    {
                        &&& 0 <= i < n
                        &&& #[trigger] all_admitted(m, ps, i)
                        &&& !admits_member(m, ps[i].0, ps[i].1)
                        &&& final(self).index@ == bound_range(m, ps, i, i, key@, info.info_id)
                    }
            }),
    {
        let participants = info.participants();
        let ghost m = self.index@;
        let ghost ps = info.participants_model();
        let ghost id = info.info_id;
        let mut i: usize = 0;
        while i < participants.len()
            invariant
                self.index.wf(),
                m == old(self).index@,
                ps == info.participants_model(),
                ps == members_of(participants@),
                distinct(ps),
                id == info.info_id,
                i <= ps.len(),
                participants@.len() == ps.len(),
                self.index@ == bound_range(m, ps, 0, i as int, key@, id),
                all_admitted(m, ps, i as int),
                forall|h: int| 0 <= h < ps.len() ==> not_bound(m, (#[trigger] ps[h]).0, key@),
            decreases participants@.len() - i,
        {
            let participant = &participants[i];
            assert(ps[i as int] == (participant.member_id@, participant.generation));
            proof {
                assert forall|h: int| 0 <= h < i implies (#[trigger] ps[h]).0
                    != ps[i as int].0 by {}
                lemma_range_elsewhere(m, ps, 0, i as int, key@, id, ps[i as int].0);
            }
            if !self.index.register_if_active(
                participant.member_id.as_str(),
                participant.generation,
                key,
                info.info_id,
            ) {
                let mut j: usize = 0;
                while j < i
                    invariant
                        self.index.wf(),
                        j <= i < ps.len(),
                        participants@.len() == ps.len(),
                        ps == members_of(participants@),
                        distinct(ps),
                        id == info.info_id,
                        self.index@ == bound_range(m, ps, j as int, i as int, key@, id),
                        forall|h: int|
                            0 <= h < ps.len() ==> not_bound(m, (#[trigger] ps[h]).0, key@),
                    decreases i - j,
                {
                    proof {
                        lemma_range_unbind(m, ps, j as int, i as int, key@, id);
                        assert(ps[j as int].0 == participants@[j as int].member_id@);
                    }
                    self.index.unregister(
                        participants[j].member_id.as_str(),
                        None,
                        key,
                        info.info_id,
                    );
                    j += 1;
                }
                assert(!admits_member(m, ps[i as int].0, ps[i as int].1));
                return false;
            }
            i += 1;
        }
        true
    }

    /// A put has ended; it is no longer bound to its participants.
    pub fn unregister(&mut self, key: &ReplicaIndexKey, info: &InflightPutInfo)
        requires
            old(self).index.wf(),
        ensures
            final(self).index.wf(),
            final(self).index@ == unbound_all(
                old(self).index@,
                info.participants_model(),
                info.participants_model().len() as int,
                key@,
                info.info_id,
            ),
    {
        let participants = info.participants();
        let ghost ps = info.participants_model();
        let mut i: usize = 0;
        while i < participants.len()
            invariant
                self.index.wf(),
                ps == members_of(participants@),
                participants@.len() == ps.len(),
                i <= ps.len(),
                self.index@ == unbound_all(
                    old(self).index@,
                    ps,
                    i as int,
                    key@,
                    info.info_id,
                ),
            decreases participants@.len() - i,
        {
            assert(ps[i as int].0 == participants@[i as int].member_id@);
            self.index.unregister(participants[i].member_id.as_str(), None, key, info.info_id);
            i += 1;
        }
    }

    /// Whether a put is bound to the current generations of all its participants.
    pub fn contains_current(&self, key: &ReplicaIndexKey, info: &InflightPutInfo) -> (r: bool)
        requires
            self.index.wf(),
        ensures
            r == forall|i: int|
                0 <= i < info.participants_model().len() ==> is_current(
                    self.index@,
                    (#[trigger] info.participants_model()[i]).0,
                    info.participants_model()[i].1,
                    key@,
                    info.info_id,
                ),
    {
        let participants = info.participants();
        let ghost ps = info.participants_model();
        let mut i: usize = 0;
        while i < participants.len()
            invariant
                self.index.wf(),
                ps == info.participants_model(),
                ps == members_of(participants@),
                participants@.len() == ps.len(),
                i <= ps.len(),
                forall|j: int|
                    0 <= j < i ==> is_current(
                        self.index@,
                        (#[trigger] ps[j]).0,
                        ps[j].1,
                        key@,
                        info.info_id,
                    ),
            decreases participants@.len() - i,
        {
            let participant = &participants[i];
            assert(ps[i as int] == (participant.member_id@, participant.generation));
            if !self.index.contains_current(
                participant.member_id.as_str(),
                participant.generation,
                key,
                info.info_id,
            ) {
                return false;
            }
            i += 1;
        }
        true
    }

    /// A member is seen in a generation; the puts of another generation are handed out.
    pub fn observe_present(&mut self, member_id: &str, generation: i64) -> (r: Vec<
        (ReplicaIndexKey, u64),
    >)
        requires
            old(self).index.wf(),
        ensures
            final(self).index.wf(),
            final(self).index@ == after_present(old(self).index@, member_id@, generation),
            lists(r@, displaced_by(old(self).index@, member_id@, generation)),
    {
        self.index.observe_present(member_id, generation)
    }

    /// A generation of a member has left; its puts are handed out.
    pub fn mark_absent(&mut self, member_id: &str, generation: i64) -> (r: Vec<
        (ReplicaIndexKey, u64),
    >)
        requires
            old(self).index.wf(),
        ensures
            final(self).index.wf(),
            final(self).index@ == after_absent(old(self).index@, member_id@, generation),
            lists(r@, drained_by(old(self).index@, member_id@, generation)),
    {
        self.index.mark_absent(member_id, generation)
    }
}

/// One of the listed members, in one generation.
pub open spec fn listed_as(ps: Seq<(Seq<char>, i64)>, member: Seq<char>, generation: i64) -> bool {
    exists|i: int| 0 <= i < ps.len() && #[trigger] ps[i] == (member, generation)
}

/// Who asks, who has the bytes and who gets them all take part in a put, each once, and no one else
/// does.
pub proof fn all_who_are_concerned_take_part(info: InflightPutInfo)
    requires
        info.source_node_id@ == info.req_node_id@ ==> info.source_generation
            == info.requester_generation,
        info.target_node_id@ == info.req_node_id@ ==> info.target_generation
            == info.requester_generation,
        info.target_node_id@ == info.source_node_id@ ==> info.target_generation
            == info.source_generation,
    ensures
        ({
            let ps = info.participants_model();
            &&& distinct(ps)
            &&& listed_as(ps, info.req_node_id@, info.requester_generation)
            &&& listed_as(ps, info.source_node_id@, info.source_generation)
            &&& listed_as(ps, info.target_node_id@, info.target_generation)
            &&& forall|i: int|
                0 <= i < ps.len() ==> {
                    ||| #[trigger] ps[i] == (info.req_node_id@, info.requester_generation)
                    ||| ps[i] == (info.source_node_id@, info.source_generation)
                    ||| ps[i] == (info.target_node_id@, info.target_generation)
                }
        }),
{
    let ps = info.participants_model();
    assert(ps[0] == (info.req_node_id@, info.requester_generation));
    if info.source_node_id@ != info.req_node_id@ {
        assert(ps[1] == (info.source_node_id@, info.source_generation));
    }
    if info.target_node_id@ != info.req_node_id@ && info.target_node_id@ != info.source_node_id@ {
        assert(ps[ps.len() - 1] == (info.target_node_id@, info.target_generation));
    }
}

/// What is bound to a member for one version of a key.
pub open spec fn bound_to(m: MemberMap, member: Seq<char>, key: KeyId) -> Option<u64> {
    if m.contains_key(member) && m[member].entries.contains_key(key) {
        Some(m[member].entries[key])
    } else {
        None
    }
}

/// A put that has ended is bound to none of those who took part. All else stays bound: other puts of the
/// same version, other keys, and what is bound to members that took no part.
pub proof fn a_put_that_ended_is_bound_to_none(
    m: MemberMap,
    ps: Seq<(Seq<char>, i64)>,
    n: int,
    key: KeyId,
    id: u64,
    member: Seq<char>,
    other: KeyId,
)
    requires
        0 <= n <= ps.len(),
    ensures
        ({
            let after = unbound_all(m, ps, n, key, id);
            let took_part = exists|i: int| 0 <= i < n && (#[trigger] ps[i]).0 == member;
            &&& bound_to(after, member, key) == if took_part && bound_to(m, member, key) == Some(id) {
                None
            } else {
                bound_to(m, member, key)
            }
            &&& other != key ==> bound_to(after, member, other) == bound_to(m, member, other)
            &&& after.contains_key(member) == m.contains_key(member)
            &&& m.contains_key(member) ==> after[member].generation == m[member].generation
                && after[member].departed == m[member].departed
        }),
    decreases n,
{
    if n > 0 {
        a_put_that_ended_is_bound_to_none(m, ps, n - 1, key, id, member, other);
        let last = ps[n - 1].0;
        if last == member {
            assert(ps[n - 1].0 == member);
        }
        if exists|i: int| 0 <= i < n && (#[trigger] ps[i]).0 == member {
            let i = choose|i: int| 0 <= i < n && (#[trigger] ps[i]).0 == member;
            if i < n - 1 {
                assert(ps[i].0 == member);
            }
        }
    }
}

/// A put that was admitted is bound to the current generation of each participant.
pub proof fn admitted_put_is_current(
    m: MemberMap,
    ps: Seq<(Seq<char>, i64)>,
    i: int,
    n: int,
    key: KeyId,
    id: u64,
)
    requires
        0 <= i < n <= ps.len(),
        distinct(ps),
        all_admitted(m, ps, n),
    ensures
        is_current(bound_range(m, ps, 0, n, key, id), ps[i].0, ps[i].1, key, id),
    decreases n,
{
    let last = ps[n - 1];
    let before = bound_range(m, ps, 0, n - 1, key, id);
    assert(admits_member(m, last.0, last.1));
    if i == n - 1 {
        assert forall|h: int| 0 <= h < n - 1 implies (#[trigger] ps[h]).0 != last.0 by {
            assert(ps[h].0 != ps[n - 1].0);
        }
        lemma_range_elsewhere(m, ps, 0, n - 1, key, id, last.0);
    } else {
        admitted_put_is_current(m, ps, i, n - 1, key, id);
        assert(ps[i].0 != ps[n - 1].0);
    }
}

/// A put that was refused is bound to no one.
pub proof fn refused_put_is_not_bound(
    m: MemberMap,
    ps: Seq<(Seq<char>, i64)>,
    i: int,
    key: KeyId,
    id: u64,
    member: Seq<char>,
)
    requires
        0 <= i <= ps.len(),
        not_bound(m, member, key),
    ensures
        not_bound(bound_range(m, ps, i, i, key, id), member, key),
{
    lemma_known_only(m, ps, i, i, key, id, member);
}

proof fn lemma_known_only(
    m: MemberMap,
    ps: Seq<(Seq<char>, i64)>,
    j: int,
    i: int,
    key: KeyId,
    id: u64,
    member: Seq<char>,
)
    requires
        0 <= i <= j,
        not_bound(m, member, key),
    ensures
        not_bound(bound_range(m, ps, j, i, key, id), member, key),
    decreases i,
{
    if i > 0 {
        lemma_known_only(m, ps, j, i - 1, key, id, member);
    }
}

} // verus!
