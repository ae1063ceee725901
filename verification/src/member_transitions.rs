//! Turning what is known of the cluster into news about its members.
//!
//! Each member gets its news in order: a generation is gone before the next one is there.
use vstd::prelude::*;

use crate::assoc::{lemma_map_has_row, lemma_row_in_map, rows_has, rows_unique, AssocMap};
use crate::cluster::{ClusterMember, MemberModel, NodeRole};
use crate::recoverability::key_views;

verus! {

/// News about a member.
pub enum MemberTransition {
    /// The member is there, as described.
    Present(ClusterMember),
    /// A generation of the member is gone.
    Absent { node_id: String, generation: i64 },
}

/// News about a member, as mathematical values.
#[verifier::ext_equal]
pub enum TransitionModel {
    Present(MemberModel),
    Absent(Seq<char>, i64),
}

impl View for MemberTransition {
    type V = TransitionModel;

    open spec fn view(&self) -> TransitionModel {
        match self {
            MemberTransition::Present(member) => TransitionModel::Present(member@),
            MemberTransition::Absent { node_id, generation } => TransitionModel::Absent(
                node_id@,
                *generation,
            ),
        }
    }
}

impl TransitionModel {
    /// The member that the news is about.
    pub open spec fn about(self) -> Seq<char> {
        match self {
            TransitionModel::Present(member) => member.id,
            TransitionModel::Absent(node, _) => node,
        }
    }
}

impl MemberTransition {
    pub fn node_id(&self) -> (r: String)
        ensures
            r@ == self@.about(),
    {
        match self {
            MemberTransition::Present(member) => member.id.clone(),
            MemberTransition::Absent { node_id, .. } => node_id.clone(),
        }
    }
}

/// Counts of what was removed when a member left.
#[derive(Clone, Copy, Debug, PartialEq, Eq, Structural)]
pub struct MemberCleanupStats {
    pub inflight_puts_removed: usize,
    pub inflight_gets_released: usize,
    pub inflight_gets_deferred: usize,
    pub holdings_removed: usize,
    pub replicas_removed: usize,
    pub routes_removed: usize,
    pub cache_removed: bool,
    pub reservation_state_removed: bool,
}

/// News as mathematical values.
pub open spec fn news(r: Seq<MemberTransition>) -> Seq<TransitionModel> {
    Seq::new(r.len(), |i: int| r[i]@)
}

/// The members as they are known, by name.
pub type Observed = Map<Seq<char>, MemberModel>;

/// What a table of members says.
pub open spec fn models(m: Map<Seq<char>, ClusterMember>) -> Observed {
    Map::new(|k: Seq<char>| m.contains_key(k), |k: Seq<char>| m[k]@)
}

/// All members of a table are well-formed and stand under their own names.
pub open spec fn members_wf(m: Map<Seq<char>, ClusterMember>) -> bool {
    forall|k: Seq<char>| #[trigger] m.contains_key(k) ==> m[k].wf() && m[k].id@ == k
}

/// The news when a member is seen: none if it is known as it is; that the old generation is gone, if
/// there is a new one; and that it is there.
pub open spec fn present_news(observed: Observed, member: MemberModel) -> Seq<TransitionModel> {
    if !observed.contains_key(member.id) {
        seq![TransitionModel::Present(member)]
    } else if observed[member.id] == member {
        Seq::empty()
    } else if observed[member.id].node_start_time != member.node_start_time {
        seq![
            TransitionModel::Absent(member.id, observed[member.id].node_start_time),
            TransitionModel::Present(member),
        ]
    } else {
        seq![TransitionModel::Present(member)]
    }
}

/// The news about the members of a list, in turn.
pub open spec fn presents_news(
    observed: Observed,
    current: Observed,
    here: Seq<Seq<char>>,
) -> Seq<TransitionModel>
    decreases here.len(),
{
    if here.len() == 0 {
        Seq::empty()
    } else {
        presents_news(observed, current, here.drop_last()) + present_news(
            observed,
            current[here.last()],
        )
    }
}

/// The news that the members of a list are gone.
pub open spec fn absents_news(observed: Observed, gone: Seq<Seq<char>>) -> Seq<TransitionModel> {
    Seq::new(
        gone.len(),
        |i: int| TransitionModel::Absent(gone[i], observed[gone[i]].node_start_time),
    )
}

/// The list holds the names for which the property holds, each once.
pub open spec fn enumerates(list: Seq<Seq<char>>, names: Set<Seq<char>>) -> bool {
    &&& list.no_duplicates()
    &&& forall|n: Seq<char>| #[trigger] names.contains(n) <==> list.contains(n)
}

/// The members that the table knows and the cluster has no more.
pub open spec fn departed(observed: Observed, current: Observed) -> Set<Seq<char>> {
    observed.dom().difference(current.dom())
}

/// The news of a snapshot: who is gone, then who is there, each in some order.
pub open spec fn snapshot_reconciled(
    observed: Observed,
    current: Observed,
    told: Seq<TransitionModel>,
) -> bool {
    exists|gone: Seq<Seq<char>>, here: Seq<Seq<char>>|
        {
            &&& #[trigger] enumerates(gone, departed(observed, current))
            &&& #[trigger] enumerates(here, current.dom())
            &&& told == absents_news(observed, gone) + presents_news(observed, current, here)
        }
}

/// The news that a member has left, or is there after all. `previous` is the generation that the cluster
/// last had of it.
pub open spec fn left_news(
    observed: Observed,
    node: Seq<char>,
    current: Option<ClusterMember>,
    previous: Option<i64>,
) -> Seq<TransitionModel> {
    match current {
        Some(member) if member.role == NodeRole::Client => present_news(observed, member@),
        _ => if observed.contains_key(node) {
            seq![TransitionModel::Absent(node, observed[node].node_start_time)]
        } else {
            match previous {
                Some(generation) => seq![TransitionModel::Absent(node, generation)],
                None => Seq::empty(),
            }
        },
    }
}

/// The members as last seen. The table decides what is news.
pub struct ObservedMembers {
    observed: AssocMap<String, ClusterMember>,
}

impl View for ObservedMembers {
    type V = Observed;

    closed spec fn view(&self) -> Observed {
        models(self.observed@)
    }
}

impl ObservedMembers {
    pub closed spec fn wf(&self) -> bool {
        self.observed.wf() && members_wf(self.observed@)
    }

    pub fn new() -> (r: Self)
        ensures
            r.wf(),
            r@ == Map::<Seq<char>, MemberModel>::empty(),
    {
        let r = ObservedMembers { observed: AssocMap::new() };
        assert(r@ =~= Map::<Seq<char>, MemberModel>::empty());
        r
    }

    /// A member is seen.
    pub fn dispatch_present(&mut self, member: ClusterMember) -> (r: Vec<MemberTransition>)
        requires
            old(self).wf(),
            member.wf(),
        ensures
            final(self).wf(),
            final(self)@ == old(self)@.insert(member@.id, member@),
            news(r@) == present_news(old(self)@, member@),
    {
        let mut r: Vec<MemberTransition> = Vec::new();
        let ghost before = self.observed@;
        let ghost seen = member@;
        if let Some(previous) = self.observed.get(&member.id) {
            assert(self@.contains_key(seen.id));
            assert(before[seen.id].wf());
            if previous.same(&member) {
                assert(self@.insert(seen.id, seen) =~= self@);
                assert(news(r@) =~= Seq::<TransitionModel>::empty());
                return r;
            }
            if previous.node_start_time != member.node_start_time {
                r.push(
                    MemberTransition::Absent {
                        node_id: previous.id.clone(),
                        generation: previous.node_start_time,
                    },
                );
            }
        }
        self.observed.insert(member.id.clone(), member.dup());
        r.push(MemberTransition::Present(member));
        proof {
            assert(self@ =~= models(before).insert(seen.id, seen));
            assert forall|k: Seq<char>| #[trigger] self.observed@.contains_key(k) implies {
                self.observed@[k].wf() && self.observed@[k].id@ == k
            } by {
                if k != seen.id {
                    assert(before.contains_key(k));
                }
            }
            assert(news(r@) =~= present_news(models(before), seen));
        }
        r
    }

    /// A member joined or was updated; `current` is what the cluster says of it now, if anything.
    pub fn member_changed(&mut self, current: Option<ClusterMember>) -> (r: Vec<MemberTransition>)
        requires
            old(self).wf(),
            current matches Some(member) ==> member.wf(),
        ensures
            final(self).wf(),
            match current {
                Some(member) if member.role == NodeRole::Client => {
                    &&& final(self)@ == old(self)@.insert(member@.id, member@)
                    &&& news(r@) == present_news(old(self)@, member@)
                },
                _ => final(self)@ == old(self)@ && r@.len() == 0,
            },
    {
        if let Some(member) = current {
            if member.is_client() {
                return self.dispatch_present(member);
            }
        }
        Vec::new()
    }

    /// A member left; `current` is what the cluster says of it now, and `previous` the generation
    /// that the cluster last had of it.
    pub fn member_left(
        &mut self,
        node_id: &String,
        current: Option<ClusterMember>,
        previous: Option<i64>,
    ) -> (r: Vec<MemberTransition>)
        requires
            old(self).wf(),
            current matches Some(member) ==> member.wf(),
        ensures
            final(self).wf(),
            news(r@) == left_news(old(self)@, node_id@, current, previous),
            final(self)@ == match current {
                Some(member) if member.role == NodeRole::Client => old(self)@.insert(
                    member@.id,
                    member@,
                ),
                _ => old(self)@.remove(node_id@),
            },
    {
        if let Some(member) = current {
            if member.is_client() {
                return self.dispatch_present(member);
            }
        }
        let ghost before = self.observed@;
        let ghost before_models = self@;
        let mut r: Vec<MemberTransition> = Vec::new();
        let generation: Option<i64> = match self.observed.remove(node_id) {
            Some(member) => Some(member.node_start_time),
            None => previous,
        };
        if let Some(generation) = generation {
            r.push(MemberTransition::Absent { node_id: node_id.clone(), generation });
        }
        proof {
            assert(before_models.contains_key(node_id@) == before.contains_key(node_id@));
            assert(self@ =~= before_models.remove(node_id@));
            assert forall|k: Seq<char>| #[trigger] self.observed@.contains_key(k) implies {
                self.observed@[k].wf() && self.observed@[k].id@ == k
            } by {
                assert(before.contains_key(k));
            }
            assert(news(r@) =~= if before_models.contains_key(node_id@) {
                seq![
                    TransitionModel::Absent(
                        node_id@,
                        before_models[node_id@].node_start_time,
                    ),
                ]
            } else {
                match previous {
                    Some(generation) => seq![TransitionModel::Absent(node_id@, generation)],
                    None => Seq::empty(),
                }
            });
        }
        r
    }

    /// Compares the table with all members that the cluster has: those that are gone are taken out
    /// first, then each that is there is looked at. Afterwards the table holds what the cluster has.
    pub fn reconcile_snapshot(&mut self, members: &Vec<ClusterMember>) -> (r: Vec<MemberTransition>)
        requires
            old(self).wf(),
            forall|i: int| 0 <= i < members@.len() ==> (#[trigger] members@[i]).wf(),
        ensures
            final(self).wf(),
            final(self)@ == snapshot(members@),
            snapshot_reconciled(old(self)@, snapshot(members@), news(r@)),
    {
        let current = collect_members(members);
        let gone = self.departed_names(&current);
        let ghost o0 = self@;
        let ghost c = models(current@);
        let ghost gv = key_views(gone@);
        let mut r: Vec<MemberTransition> = Vec::new();
        let mut i: usize = 0;
        assert(news(r@) =~= absents_news(o0, gv.take(0)));
        while i < gone.len()
            invariant
                self.wf(),
                gv == key_views(gone@),
                enumerates(gv, departed(o0, c)),
                i <= gone@.len(),
                news(r@) == absents_news(o0, gv.take(i as int)),
                forall|k: Seq<char>| #[trigger]
                    self@.contains_key(k) <==> o0.contains_key(k) && !gv.take(i as int).contains(k),
                forall|k: Seq<char>| #[trigger] self@.contains_key(k) ==> self@[k] == o0[k],
            decreases gone@.len() - i,
        {
            let name = &gone[i];
            let ghost before = self.observed@;
            let ghost now = self@;
            let ghost r0 = r@;
            proof {
                assert(gv[i as int] == name@);
                assert(gv.contains(name@));
                assert(departed(o0, c).contains(name@));
                assert(!gv.take(i as int).contains(name@)) by {
                    if gv.take(i as int).contains(name@) {
                        let j = choose|j: int|
                            0 <= j < gv.take(i as int).len() && gv.take(i as int)[j] == name@;
                        assert(gv[j] == gv[i as int]);
                    }
                }
                assert(self@.contains_key(name@));
                assert(before.contains_key(name@));
            }
            if let Some(member) = self.observed.remove(name) {
                assert(member@ == o0[name@]);
                r.push(
                    MemberTransition::Absent {
                        node_id: member.id,
                        generation: member.node_start_time,
                    },
                );
                assert(r@.last()@ == TransitionModel::Absent(name@, o0[name@].node_start_time));
            }
            i += 1;
            proof {
                assert forall|k: Seq<char>| #[trigger] self.observed@.contains_key(k) implies {
                    self.observed@[k].wf() && self.observed@[k].id@ == k
                } by {
                    assert(before.contains_key(k));
                }
                assert(self@ =~= now.remove(name@));
                assert(gv.take(i as int) =~= gv.take(i - 1).push(name@));
                lemma_push_contains(gv.take(i - 1), name@);
                assert(news(r@) =~= news(r0).push(r@.last()@));
                assert(news(r@) =~= absents_news(o0, gv.take(i as int)));
            }
        }
        let ghost absents = absents_news(o0, gv);
        let ghost here = key_views_of(current.rows());
        proof {
            assert(gv.take(gv.len() as int) =~= gv);
            lemma_enumerates_rows(&current);
        }
        let mut j: usize = 0;
        assert(news(r@) =~= absents + presents_news(o0, c, here.take(0)));
        while j < current.len()
            invariant
                self.wf(),
                current.wf(),
                members_wf(current@),
                c == models(current@),
                here == key_views_of(current.rows()),
                enumerates(gv, departed(o0, c)),
                enumerates(here, c.dom()),
                j <= current.rows().len(),
                news(r@) == absents + presents_news(o0, c, here.take(j as int)),
                forall|k: Seq<char>| #[trigger]
                    self@.contains_key(k) <==> (o0.contains_key(k) && !gv.contains(k))
                        || here.take(j as int).contains(k),
                forall|k: Seq<char>| #[trigger]
                    self@.contains_key(k) ==> self@[k] == if here.take(j as int).contains(k) {
                        c[k]
                    } else {
                        o0[k]
                    },
            decreases current.rows().len() - j,
        {
            let row = current.row(j);
            let ghost now = self@;
            let ghost r0 = r@;
            let ghost name = row.0@;
            proof {
                assert(here[j as int] == name);
                assert(here.contains(name));
                assert(!here.take(j as int).contains(name)) by {
                    if here.take(j as int).contains(name) {
                        let h = choose|h: int|
                            0 <= h < here.take(j as int).len() && here.take(j as int)[h] == name;
                        assert(here[h] == here[j as int]);
                    }
                }
                assert(c.contains_key(name));
                assert(!departed(o0, c).contains(name));
                assert(!gv.contains(name));
                assert(row.1@ == c[name]);
                assert(row.1@.id == name);
                assert(self@.contains_key(name) == o0.contains_key(name));
                assert(present_news(self@, row.1@) == present_news(o0, row.1@));
            }
            let mut more = self.dispatch_present(row.1.dup());
            let ghost m0 = more@;
            r.append(&mut more);
            j += 1;
            proof {
                assert(here.take(j as int) =~= here.take(j - 1).push(name));
                assert(here.take(j as int).drop_last() =~= here.take(j - 1));
                lemma_push_contains(here.take(j - 1), name);
                assert(news(r@) =~= news(r0) + news(m0));
                assert(news(r@) =~= absents + presents_news(o0, c, here.take(j as int)));
                assert(self@ == now.insert(name, c[name]));
            }
        }
        proof {
            assert(here.take(here.len() as int) =~= here);
            assert forall|k: Seq<char>| #[trigger] self@.contains_key(k) <==> c.contains_key(k) by {
                assert(c.dom().contains(k) <==> here.contains(k));
                assert(departed(o0, c).contains(k) <==> gv.contains(k));
            }
            assert forall|k: Seq<char>| #[trigger] self@.contains_key(k) implies self@[k]
                == c[k] by {
                assert(c.contains_key(k));
                assert(c.dom().contains(k) <==> here.contains(k));
            }
            assert(self@ =~= c);
        }
        r
    }

    /// The names of the members that the table knows and `current` has not.
    fn departed_names(&self, current: &AssocMap<String, ClusterMember>) -> (r: Vec<String>)
        requires
            self.wf(),
            current.wf(),
        ensures
            enumerates(key_views(r@), departed(self@, models(current@))),
    {
        let mut r: Vec<String> = Vec::new();
        let mut i: usize = 0;
        proof {
            self.observed.lemma_rows();
        }
        while i < self.observed.len()
            invariant
                self.wf(),
                self.observed.wf(),
                rows_unique(self.observed.rows()),
                i <= self.observed.rows().len(),
                forall|j: int|
                    0 <= j < r@.len() ==> departed(self@, models(current@)).contains(
                        (#[trigger] r@[j])@,
                    ) && rows_has(self.observed.rows().take(i as int), r@[j]@),
                forall|a: int, b: int|
                    0 <= a < r@.len() && 0 <= b < r@.len() && a != b ==> (#[trigger] r@[a])@ != (
                    #[trigger] r@[b])@,
                forall|j: int|
                    0 <= j < i && !current@.contains_key((#[trigger] self.observed.rows()[j]).0@)
                        ==> key_views(r@).contains(self.observed.rows()[j].0@),
            decreases self.observed.rows().len() - i,
        {
            let row = self.observed.row(i);
            let ghost r0 = r@;
            let ghost rows = self.observed.rows();
            proof {
                assert(!rows_has(rows.take(i as int), row.0@)) by {
                    if rows_has(rows.take(i as int), row.0@) {
                        let h = choose|h: int|
                            0 <= h < rows.take(i as int).len() && (#[trigger] rows.take(
                                i as int,
                            )[h]).0@ == row.0@;
                        assert(rows[h].0@ == rows[i as int].0@);
                    }
                }
                assert forall|n: Seq<char>| rows_has(rows.take(i as int), n) implies rows_has(
                    rows.take(i + 1),
                    n,
                ) by {
                    let h = choose|h: int|
                        0 <= h < rows.take(i as int).len() && (#[trigger] rows.take(
                            i as int,
                        )[h]).0@ == n;
                    assert(rows.take(i + 1)[h].0@ == n);
                }
                assert(rows.take(i + 1)[i as int].0@ == row.0@);
                assert(rows_has(rows.take(i + 1), row.0@));
            }
            if !current.contains_key(&row.0) {
                r.push(row.0.clone());
                proof {
                    assert(self@.contains_key(row.0@));
                    assert(key_views(r@) =~= key_views(r0).push(row.0@));
                    lemma_push_contains(key_views(r0), row.0@);
                    assert forall|k: Seq<char>| key_views(r0).contains(k) implies key_views(
                        r@,
                    ).contains(k) by {}
                }
            }
            i += 1;
        }
        proof {
            let list = key_views(r@);
            let names = departed(self@, models(current@));
            assert(list.no_duplicates());
            assert forall|n: Seq<char>| #[trigger] names.contains(n) <==> list.contains(n) by {
                if names.contains(n) {
                    let h = lemma_map_has_row(self.observed.rows(), n);
                    assert(list.contains(self.observed.rows()[h].0@));
                }
                if list.contains(n) {
                    let h = choose|h: int| 0 <= h < list.len() && list[h] == n;
                    assert(names.contains(r@[h]@));
                }
            }
        }
        r
    }
}

/// The members of a list by name; of two with the same name the later counts.
pub open spec fn snapshot(members: Seq<ClusterMember>) -> Observed
    decreases members.len(),
{
    if members.len() == 0 {
        Map::empty()
    } else {
        snapshot(members.drop_last()).insert(members.last()@.id, members.last()@)
    }
}

fn collect_members(members: &Vec<ClusterMember>) -> (r: AssocMap<String, ClusterMember>)
    requires
        forall|i: int| 0 <= i < members@.len() ==> (#[trigger] members@[i]).wf(),
    ensures
        r.wf(),
        members_wf(r@),
        models(r@) == snapshot(members@),
{
    let mut r: AssocMap<String, ClusterMember> = AssocMap::new();
    let mut i: usize = 0;
    assert(models(r@) =~= snapshot(members@.take(0)));
    while i < members.len()
        invariant
            forall|i: int| 0 <= i < members@.len() ==> (#[trigger] members@[i]).wf(),
            r.wf(),
            members_wf(r@),
            i <= members@.len(),
            models(r@) == snapshot(members@.take(i as int)),
        decreases members@.len() - i,
    {
        let member = &members[i];
        let ghost before = r@;
        r.insert(member.id.clone(), member.dup());
        i += 1;
        proof {
            assert(members@.take(i as int).drop_last() =~= members@.take(i - 1));
            assert(models(r@) =~= models(before).insert(member@.id, member@));
            assert forall|k: Seq<char>| #[trigger] r@.contains_key(k) implies r@[k].wf()
                && r@[k].id@ == k by {
                if k != member@.id {
                    assert(before.contains_key(k));
                }
            }
        }
    }
    assert(members@.take(members@.len() as int) =~= members@);
    r
}

/// The names of the rows of a table.
pub open spec fn key_views_of(rows: Seq<(String, ClusterMember)>) -> Seq<Seq<char>> {
    Seq::new(rows.len(), |i: int| rows[i].0@)
}

proof fn lemma_push_contains(s: Seq<Seq<char>>, x: Seq<char>)
    ensures
        forall|k: Seq<char>| #[trigger] s.push(x).contains(k) <==> s.contains(k) || k == x,
{
    assert forall|k: Seq<char>| #[trigger] s.push(x).contains(k) <==> s.contains(k) || k == x by {
        if s.contains(k) {
            let i = choose|i: int| 0 <= i < s.len() && s[i] == k;
            assert(s.push(x)[i] == k);
        }
        if k == x {
            assert(s.push(x)[s.len() as int] == k);
        }
        if s.push(x).contains(k) {
            let i = choose|i: int| 0 <= i < s.push(x).len() && s.push(x)[i] == k;
            if i < s.len() {
                assert(s[i] == k);
            }
        }
    }
}

proof fn lemma_enumerates_rows(m: &AssocMap<String, ClusterMember>)
    requires
        m.wf(),
    ensures
        enumerates(key_views_of(m.rows()), models(m@).dom()),
{
    m.lemma_rows();
    let list = key_views_of(m.rows());
    assert forall|n: Seq<char>| #[trigger] models(m@).dom().contains(n) <==> list.contains(n) by {
        if m@.contains_key(n) {
            let i = lemma_map_has_row(m.rows(), n);
            assert(list[i] == n);
        }
        if list.contains(n) {
            let i = choose|i: int| 0 <= i < list.len() && list[i] == n;
            lemma_row_in_map(m.rows(), i);
        }
    }
}

/// A member that comes back in a new generation is first reported gone, then there.
pub proof fn restart_is_absent_then_present(observed: Observed, member: MemberModel)
    requires
        observed.contains_key(member.id),
        observed[member.id].node_start_time != member.node_start_time,
    ensures
        present_news(observed, member).len() == 2,
        present_news(observed, member)[0] == TransitionModel::Absent(
            member.id,
            observed[member.id].node_start_time,
        ),
        present_news(observed, member)[1] == TransitionModel::Present(member),
{
}

/// Nothing is news twice.
pub proof fn seen_again_is_no_news(observed: Observed, member: MemberModel)
    ensures
        present_news(observed.insert(member.id, member), member) == Seq::<TransitionModel>::empty(),
{
}

} // verus!
