//! What is under way for each key: puts, gets, the making of further copies, or the reclaim of a
//! copy. A reclaim excludes all the others.
use vstd::prelude::*;

use crate::assoc::AssocMap;
use crate::ids::PutIDForAKey;

verus! {

/// What a copy that is to be reclaimed lies in.
#[derive(Clone, Copy, Debug, PartialEq, Eq, Structural)]
pub enum OwnerReclaimBacking {
    /// Memory that the owner has in its own index.
    Allocation,
    /// Memory that only the master knows of.
    UnindexedAllocation,
    /// A slot of granted memory.
    CommittedSlot { grant_id: u64, slot_index: u32, slot_size: u64 },
}

/// Why a copy is to be reclaimed.
#[derive(Clone, Copy, Debug, PartialEq, Eq, Structural)]
pub enum OwnerReclaimReason {
    /// The cache of the owner is over its capacity.
    CapacityEviction,
    /// The owner needs slots.
    Reserve,
}

/// A copy that is to be reclaimed.
#[derive(Debug)]
pub struct OwnerReclaimItem {
    pub key: String,
    pub put_id: PutIDForAKey,
    pub epoch: u64,
    pub backing: OwnerReclaimBacking,
    pub reason: OwnerReclaimReason,
}

/// A copy that is to be reclaimed, as a mathematical value.
pub struct ItemId {
    pub key: Seq<char>,
    pub put_id: PutIDForAKey,
    pub epoch: u64,
    pub backing: OwnerReclaimBacking,
    pub reason: OwnerReclaimReason,
}

impl View for OwnerReclaimItem {
    type V = ItemId;

    open spec fn view(&self) -> ItemId {
        ItemId {
            key: self.key@,
            put_id: self.put_id,
            epoch: self.epoch,
            backing: self.backing,
            reason: self.reason,
        }
    }
}

impl OwnerReclaimItem {
    pub fn dup(&self) -> (r: Self)
        ensures
            r@ == self@,
    {
        OwnerReclaimItem {
            key: self.key.clone(),
            put_id: self.put_id,
            epoch: self.epoch,
            backing: self.backing,
            reason: self.reason,
        }
    }

    /// The two items are the same in every part.
    pub fn same(&self, other: &OwnerReclaimItem) -> (r: bool)
        ensures
            r == (self@ == other@),
    {
        self.key == other.key && self.put_id.0 == other.put_id.0 && self.put_id.1 == other.put_id.1
            && self.epoch == other.epoch && self.backing == other.backing && self.reason
            == other.reason
    }
}

/// The kinds of activity that are counted.
#[derive(Clone, Copy, Debug, PartialEq, Eq, Structural)]
pub enum MasterKeyActivityKind {
    Put,
    Get,
    Replica,
}

/// What stood against a reclaim.
#[derive(Clone, Copy, Debug, PartialEq, Eq, Structural)]
pub struct MasterKeyActivitySnapshot {
    pub puts: u32,
    pub gets: u32,
    pub replicas: u32,
    pub reclaim_installed: bool,
}

/// The activity of one key.
pub struct MasterKeyActivityState {
    pub puts: u32,
    pub gets: u32,
    pub replicas: u32,
    pub reclaim: Option<OwnerReclaimItem>,
}

/// The activity of one key, as mathematical values.
pub struct ActivityModel {
    pub puts: int,
    pub gets: int,
    pub replicas: int,
    pub reclaim: Option<ItemId>,
}

impl View for MasterKeyActivityState {
    type V = ActivityModel;

    open spec fn view(&self) -> ActivityModel {
        ActivityModel {
            puts: self.puts as int,
            gets: self.gets as int,
            replicas: self.replicas as int,
            reclaim: match self.reclaim {
                Some(item) => Some(item@),
                None => None,
            },
        }
    }
}

impl ActivityModel {
    /// Nothing is under way.
    pub open spec fn idle() -> ActivityModel {
        ActivityModel { puts: 0, gets: 0, replicas: 0, reclaim: None }
    }

    /// The number of activities of one kind.
    pub open spec fn count(self, kind: MasterKeyActivityKind) -> int {
        match kind {
            MasterKeyActivityKind::Put => self.puts,
            MasterKeyActivityKind::Get => self.gets,
            MasterKeyActivityKind::Replica => self.replicas,
        }
    }

    /// One activity more, or one less.
    pub open spec fn step(self, kind: MasterKeyActivityKind, by: int) -> ActivityModel {
        match kind {
            MasterKeyActivityKind::Put => ActivityModel { puts: self.puts + by, ..self },
            MasterKeyActivityKind::Get => ActivityModel { gets: self.gets + by, ..self },
            MasterKeyActivityKind::Replica => ActivityModel { replicas: self.replicas + by, ..self },
        }
    }

    /// A reclaim is under way only where nothing else is.
    pub open spec fn inv(self) -> bool {
        &&& 0 <= self.puts <= u32::MAX
        &&& 0 <= self.gets <= u32::MAX
        &&& 0 <= self.replicas <= u32::MAX
        &&& self != ActivityModel::idle()
        &&& self.reclaim is Some ==> self.puts == 0 && self.gets == 0 && self.replicas == 0
    }
}

/// The activity of all keys, as a mathematical value. A key that is not listed is idle.
pub type ActivityMap = Map<Seq<char>, ActivityModel>;

/// The activity of one key.
pub open spec fn activity_of(m: ActivityMap, key: Seq<char>) -> ActivityModel {
    if m.contains_key(key) {
        m[key]
    } else {
        ActivityModel::idle()
    }
}

/// The map in which a key has the given activity; an idle key is not listed.
pub open spec fn with_activity(m: ActivityMap, key: Seq<char>, a: ActivityModel) -> ActivityMap {
    if a == ActivityModel::idle() {
        m.remove(key)
    } else {
        m.insert(key, a)
    }
}

/// A new activity may begin.
pub open spec fn admits(
    a: ActivityModel,
    kind: MasterKeyActivityKind,
    reject_same_kind_if_active: bool,
) -> bool {
    a.reclaim is None && !(reject_same_kind_if_active && a.count(kind) > 0)
}

/// The right to an activity, until it is released.
pub struct MasterKeyActivityLease {
    pub key: String,
    pub kind: MasterKeyActivityKind,
    pub released: bool,
}

/// The activity of all keys.
pub struct MasterKeyActivityTable {
    states: AssocMap<String, MasterKeyActivityState>,
}

impl View for MasterKeyActivityTable {
    type V = ActivityMap;

    closed spec fn view(&self) -> ActivityMap {
        Map::new(
            |k: Seq<char>| self.states@.contains_key(k),
            |k: Seq<char>| self.states@[k]@,
        )
    }
}

impl MasterKeyActivityTable {
    /// Every listed key is active, and a reclaim excludes all else.
    pub closed spec fn wf(&self) -> bool {
        &&& self.states.wf()
        &&& forall|k: Seq<char>| #[trigger] self@.contains_key(k) ==> self@[k].inv()
    }

    /// A reclaim is never under way together with a put, a get or the making of a copy.
    pub proof fn reclaim_excludes_activity(&self, key: Seq<char>)
        requires
            self.wf(),
        ensures
            activity_of(self@, key).reclaim is Some ==> activity_of(self@, key).puts == 0
                && activity_of(self@, key).gets == 0 && activity_of(self@, key).replicas == 0,
    {
        if self@.contains_key(key) {
            assert(self@[key].inv());
        }
    }

    /// A key is listed only while something is under way for it.
    pub proof fn listed_keys_are_active(&self, key: Seq<char>)
        requires
            self.wf(),
            self@.contains_key(key),
        ensures
            self@[key].inv(),
            self@[key] != ActivityModel::idle(),
    {
    }

    pub fn new() -> (r: Self)
        ensures
            r.wf(),
            r@ == Map::<Seq<char>, ActivityModel>::empty(),
    {
        let r = MasterKeyActivityTable { states: AssocMap::new() };
        assert(r@ =~= Map::<Seq<char>, ActivityModel>::empty());
        r
    }

    /// Takes the state of a key out.
    fn take(&mut self, key: &String) -> (r: MasterKeyActivityState)
        requires
            old(self).wf(),
        ensures
            final(self).wf(),
            final(self)@ == old(self)@.remove(key@),
            r@ == activity_of(old(self)@, key@),
    {
        let ghost before = self@;
        let r = match self.states.remove(key) {
            Some(state) => state,
            None => MasterKeyActivityState { puts: 0, gets: 0, replicas: 0, reclaim: None },
        };
        proof {
            assert(self@ =~= before.remove(key@));
            assert forall|k: Seq<char>| #[trigger] self@.contains_key(k) implies self@[k].inv() by {
                assert(before.contains_key(k));
            }
        }
        r
    }

    /// Puts the state of a key in; an idle key is not listed.
    fn put(&mut self, key: String, state: MasterKeyActivityState)
        requires
            old(self).wf(),
            !old(self)@.contains_key(key@),
            state@ == ActivityModel::idle() || state@.inv(),
        ensures
            final(self).wf(),
            final(self)@ == with_activity(old(self)@, key@, state@),
    {
        let ghost before = self@;
        if state.puts == 0 && state.gets == 0 && state.replicas == 0 && state.reclaim.is_none() {
            assert(before.remove(key@) =~= before);
            return ;
        }
        self.states.insert(key, state);
        proof {
            assert(self@ =~= before.insert(key@, state@));
            assert forall|k: Seq<char>| #[trigger] self@.contains_key(k) implies self@[k].inv() by {
                if k != key@ {
                    assert(before.contains_key(k));
                }
            }
        }
    }

    /// Begins an activity, unless a reclaim is under way, or one of the same kind is and must not.
    pub fn reserve(
        &mut self,
        key: &String,
        kind: MasterKeyActivityKind,
        reject_same_kind_if_active: bool,
    ) -> (r: Option<MasterKeyActivityLease>)
        requires
            old(self).wf(),
            activity_of(old(self)@, key@).count(kind) < u32::MAX,
        ensures
            final(self).wf(),
            r is Some <==> admits(activity_of(old(self)@, key@), kind, reject_same_kind_if_active),
            r is None ==> final(self)@ == old(self)@,
            r matches Some(lease) ==> {
                &&& lease.key@ == key@
                &&& lease.kind == kind
                &&& !lease.released
                &&& final(self)@ == with_activity(
                    old(self)@,
                    key@,
                    activity_of(old(self)@, key@).step(kind, 1),
                )
            },
    {
        let ghost before = self@;
        let mut state = self.take(key);
        let counter: u32 = match kind {
            MasterKeyActivityKind::Put => state.puts,
            MasterKeyActivityKind::Get => state.gets,
            MasterKeyActivityKind::Replica => state.replicas,
        };
        if state.reclaim.is_some() || (reject_same_kind_if_active && counter > 0) {
            self.put(key.clone(), state);
            proof {
                assert(before.contains_key(key@));
                assert(before.remove(key@).insert(key@, before[key@]) =~= before);
            }
            return None;
        }
        match kind {
            MasterKeyActivityKind::Put => {
                state.puts = counter + 1;
            },
            MasterKeyActivityKind::Get => {
                state.gets = counter + 1;
            },
            MasterKeyActivityKind::Replica => {
                state.replicas = counter + 1;
            },
        }
        self.put(key.clone(), state);
        assert(before.remove(key@).insert(key@, state@) =~= before.insert(key@, state@));
        Some(MasterKeyActivityLease { key: key.clone(), kind, released: false })
    }

    /// Ends an activity.
    pub fn release(&mut self, key: &String, kind: MasterKeyActivityKind)
        requires
            old(self).wf(),
            activity_of(old(self)@, key@).count(kind) > 0,
        ensures
            final(self).wf(),
            final(self)@ == with_activity(
                old(self)@,
                key@,
                activity_of(old(self)@, key@).step(kind, -1),
            ),
    {
        let ghost before = self@;
        let mut state = self.take(key);
        match kind {
            MasterKeyActivityKind::Put => {
                state.puts = state.puts - 1;
            },
            MasterKeyActivityKind::Get => {
                state.gets = state.gets - 1;
            },
            MasterKeyActivityKind::Replica => {
                state.replicas = state.replicas - 1;
            },
        }
        self.put(key.clone(), state);
        assert(before.remove(key@).insert(key@, state@) =~= before.insert(key@, state@));
        assert(before.remove(key@).remove(key@) =~= before.remove(key@));
    }

    /// Installs a reclaim of a key that nothing is under way for, or tells what is.
    pub fn try_install_reclaim(&mut self, item: &OwnerReclaimItem) -> (r: Result<
        (),
        MasterKeyActivitySnapshot,
    >)
        requires
            old(self).wf(),
        ensures
            final(self).wf(),
            ({
                let a = activity_of(old(self)@, item.key@);
                match r {
                    Ok(_) => {
                        &&& a == ActivityModel::idle()
                        &&& final(self)@ == with_activity(
                            old(self)@,
                            item.key@,
                            ActivityModel { reclaim: Some(item@), ..ActivityModel::idle() },
                        )
                    },
                    Err(s) => {
                        &&& a != ActivityModel::idle()
                        &&& s.puts == a.puts && s.gets == a.gets && s.replicas == a.replicas
                        &&& s.reclaim_installed == (a.reclaim is Some)
                        &&& final(self)@ == old(self)@
                    },
                }
            }),
    {
        let ghost before = self@;
        let mut state = self.take(&item.key);
        if state.puts != 0 || state.gets != 0 || state.replicas != 0 || state.reclaim.is_some() {
            let snapshot = MasterKeyActivitySnapshot {
                puts: state.puts,
                gets: state.gets,
                replicas: state.replicas,
                reclaim_installed: state.reclaim.is_some(),
            };
            self.put(item.key.clone(), state);
            proof {
                assert(before.contains_key(item.key@));
                assert(before.remove(item.key@).insert(item.key@, before[item.key@]) =~= before);
            }
            return Err(snapshot);
        }
        state.reclaim = Some(item.dup());
        self.put(item.key.clone(), state);
        assert(before.remove(item.key@).insert(item.key@, state@) =~= before.insert(
            item.key@,
            state@,
        ));
        Ok(())
    }

    /// The number of activities of one kind for a key.
    pub fn count(&self, key: &String, kind: MasterKeyActivityKind) -> (r: u32)
        requires
            self.wf(),
        ensures
            r == activity_of(self@, key@).count(kind),
    {
        match self.states.get(key) {
            None => 0,
            Some(state) => {
                assert(self@.contains_key(key@));
                match kind {
                    MasterKeyActivityKind::Put => state.puts,
                    MasterKeyActivityKind::Get => state.gets,
                    MasterKeyActivityKind::Replica => state.replicas,
                }
            },
        }
    }

    /// Whether nothing is under way for a key.
    pub fn is_quiescent(&self, key: &String) -> (r: bool)
        requires
            self.wf(),
        ensures
            r == (activity_of(self@, key@) == ActivityModel::idle()),
    {
        match self.states.get(key) {
            None => true,
            Some(state) => {
                assert(self@.contains_key(key@));
                state.puts == 0 && state.gets == 0 && state.replicas == 0 && state.reclaim.is_none()
            },
        }
    }

    /// Whether exactly this reclaim is installed.
    pub fn reclaim_matches(&self, item: &OwnerReclaimItem) -> (r: bool)
        requires
            self.wf(),
        ensures
            r == (activity_of(self@, item.key@).reclaim == Some(item@)),
    {
        match self.states.get(&item.key) {
            None => false,
            Some(state) => match &state.reclaim {
                Some(installed) => installed.same(item),
                None => false,
            },
        }
    }

    /// Takes a reclaim away, if exactly this one is installed.
    pub fn clear_reclaim(&mut self, item: &OwnerReclaimItem) -> (r: bool)
        requires
            old(self).wf(),
        ensures
            final(self).wf(),
            r == (activity_of(old(self)@, item.key@).reclaim == Some(item@)),
            final(self)@ == if r {
                old(self)@.remove(item.key@)
            } else {
                old(self)@
            },
    {
        if !self.reclaim_matches(item) {
            return false;
        }
        proof {
            assert(self@.contains_key(item.key@));
            assert(self@[item.key@].inv());
        }
        let ghost before = self@;
        let mut state = self.take(&item.key);
        state.reclaim = None;
        self.put(item.key.clone(), state);
        assert(before.remove(item.key@).remove(item.key@) =~= before.remove(item.key@));
        true
    }

    /// Whether a reclaim of a key is installed.
    pub fn has_reclaim(&self, key: &String) -> (r: bool)
        requires
            self.wf(),
        ensures
            r == (activity_of(self@, key@).reclaim is Some),
    {
        match self.states.get(key) {
            None => false,
            Some(state) => state.reclaim.is_some(),
        }
    }
}

impl MasterKeyActivityLease {
    /// The lease stands for an activity that has not been released.
    pub open spec fn counted(&self, m: ActivityMap) -> bool {
        self.released || activity_of(m, self.key@).count(self.kind) > 0
    }

    /// Ends the activity, once: releasing again changes nothing.
    pub fn release_now(&mut self, table: &mut MasterKeyActivityTable)
        requires
            old(table).wf(),
            old(self).counted(old(table)@),
        ensures
            final(table).wf(),
            final(self).released,
            final(self).key == old(self).key,
            final(self).kind == old(self).kind,
            final(table)@ == if old(self).released {
                old(table)@
            } else {
                with_activity(
                    old(table)@,
                    old(self).key@,
                    activity_of(old(table)@, old(self).key@).step(old(self).kind, -1),
                )
            },
    {
        if !self.released {
            self.released = true;
            table.release(&self.key, self.kind);
        }
    }
}

/// A right to an activity that several hold together. Any of them can end the activity, and letting go
/// of the last handle ends it too; it ends once.
pub struct SharedActivityLease {
    lease: MasterKeyActivityLease,
    handles: usize,
}

/// A right to an activity and those who hold it, as mathematical values.
#[verifier::ext_equal]
pub struct SharedLeaseModel {
    pub key: Seq<char>,
    pub kind: MasterKeyActivityKind,
    pub released: bool,
    pub handles: nat,
}

impl View for SharedActivityLease {
    type V = SharedLeaseModel;

    closed spec fn view(&self) -> SharedLeaseModel {
        SharedLeaseModel {
            key: self.lease.key@,
            kind: self.lease.kind,
            released: self.lease.released,
            handles: self.handles as nat,
        }
    }
}

/// The right stands for an activity that has not ended, or has been released.
pub open spec fn lease_counted(s: SharedLeaseModel, m: ActivityMap) -> bool {
    s.released || activity_of(m, s.key).count(s.kind) > 0
}

/// The activity is ended, unless it was before.
pub open spec fn lease_ended(s: SharedLeaseModel, m: ActivityMap) -> (SharedLeaseModel, ActivityMap) {
    (
        SharedLeaseModel { released: true, ..s },
        if s.released {
            m
        } else {
            with_activity(m, s.key, activity_of(m, s.key).step(s.kind, -1))
        },
    )
}

/// One handle was let go of.
pub open spec fn handle_dropped(s: SharedLeaseModel, m: ActivityMap) -> (
    SharedLeaseModel,
    ActivityMap,
) {
    let left = SharedLeaseModel { handles: (s.handles - 1) as nat, ..s };
    if left.handles == 0 {
        lease_ended(left, m)
    } else {
        (left, m)
    }
}

impl SharedActivityLease {
    /// The right has one holder.
    pub fn new(lease: MasterKeyActivityLease) -> (r: Self)
        ensures
            r@ == (SharedLeaseModel {
                key: lease.key@,
                kind: lease.kind,
                released: lease.released,
                handles: 1,
            }),
    {
        SharedActivityLease { lease, handles: 1 }
    }

    /// The right has one holder more.
    pub fn share(&mut self)
        requires
            old(self)@.handles < usize::MAX,
        ensures
            final(self)@ == (SharedLeaseModel { handles: old(self)@.handles + 1, ..old(self)@ }),
    {
        self.handles = self.handles + 1;
    }

    /// A holder ends the activity. If it has ended already nothing changes.
    pub fn release_now(&mut self, table: &mut MasterKeyActivityTable)
        requires
            old(table).wf(),
            lease_counted(old(self)@, old(table)@),
        ensures
            final(table).wf(),
            (final(self)@, final(table)@) == lease_ended(old(self)@, old(table)@),
    {
        self.lease.release_now(table);
    }

    /// A holder lets go. The last one ends the activity, unless it has ended already.
    pub fn drop_handle(&mut self, table: &mut MasterKeyActivityTable)
        requires
            old(table).wf(),
            lease_counted(old(self)@, old(table)@),
            old(self)@.handles > 0,
        ensures
            final(table).wf(),
            (final(self)@, final(table)@) == handle_dropped(old(self)@, old(table)@),
    {
        self.handles = self.handles - 1;
        if self.handles == 0 {
            self.lease.release_now(table);
        }
    }
}

/// The handles are let go of one after another.
pub open spec fn handles_dropped(s: SharedLeaseModel, m: ActivityMap, n: nat) -> (
    SharedLeaseModel,
    ActivityMap,
)
    decreases n,
{
    if n == 0 {
        (s, m)
    } else {
        let (s1, m1) = handles_dropped(s, m, (n - 1) as nat);
        handle_dropped(s1, m1)
    }
}

/// Letting go of some handles, but not of all, ends nothing; letting go of the last one ends the
/// activity once, and only if no holder has ended it before.
pub proof fn the_last_handle_ends_the_activity(s: SharedLeaseModel, m: ActivityMap, n: nat)
    requires
        n <= s.handles,
        s.handles > 0,
    ensures
        n < s.handles ==> handles_dropped(s, m, n) == (
            SharedLeaseModel { handles: (s.handles - n) as nat, ..s },
            m,
        ),
        n == s.handles ==> handles_dropped(s, m, n) == lease_ended(
            SharedLeaseModel { handles: 0, ..s },
            m,
        ),
        s.released ==> handles_dropped(s, m, n).1 == m,
    decreases n,
{
    if n > 0 {
        the_last_handle_ends_the_activity(s, m, (n - 1) as nat);
    }
}

/// Ending an activity right after beginning it leaves the table as it was.
pub proof fn release_undoes_reserve(m: ActivityMap, key: Seq<char>, kind: MasterKeyActivityKind)
    requires
        forall|k: Seq<char>| #[trigger] m.contains_key(k) ==> m[k].inv(),
    ensures
        ({
            let reserved = with_activity(m, key, activity_of(m, key).step(kind, 1));
            with_activity(reserved, key, activity_of(reserved, key).step(kind, -1)) == m
        }),
{
    let a = activity_of(m, key);
    let up = a.step(kind, 1);
    if m.contains_key(key) {
        assert(m[key].inv());
    }
    assert(up != ActivityModel::idle());
    let reserved = m.insert(key, up);
    assert(up.step(kind, -1) == a);
    if m.contains_key(key) {
        assert(reserved.insert(key, a) =~= m);
    } else {
        assert(reserved.remove(key) =~= m);
    }
}

/// While a reclaim is installed no activity begins and no other reclaim is installed.
pub proof fn reclaim_fences_the_key(
    m: ActivityMap,
    item: ItemId,
    kind: MasterKeyActivityKind,
    reject: bool,
)
    ensures
        ({
            let fenced = with_activity(
                m,
                item.key,
                ActivityModel { reclaim: Some(item), ..ActivityModel::idle() },
            );
            &&& !admits(activity_of(fenced, item.key), kind, reject)
            &&& activity_of(fenced, item.key) != ActivityModel::idle()
        }),
{
}

} // verus!
