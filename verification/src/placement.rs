//! Choosing the node that a put goes to.
use rand::Rng;
use vstd::prelude::*;

use crate::cluster::ClusterMember;
use crate::ids::NodeID;
use crate::name_set::{names_has, NameSet};
use crate::routes::Allocation;
use crate::text::str_eq;

verus! {

/// The number of segments that are tried at random.
pub const RANDOM_ATTEMPTS: u32 = 3;

/// Where a put goes.
#[derive(Debug)]
pub enum PutPlacementTarget {
    /// The bytes stay where the requester has staged them.
    Local { node_id: NodeID, persist_to_ssd: bool },
    /// The bytes go to memory on another node.
    Remote { node_id: NodeID, allocation: Allocation, persist_to_ssd: bool },
}

/// The nodes that keep values on an SSD. Where there are any, only they may be chosen.
pub struct PutSsdPlacementScope {
    capable_nodes: NameSet,
}

/// Some member of this name keeps values on an SSD.
pub open spec fn has_ssd_member(members: Seq<ClusterMember>, name: Seq<char>) -> bool {
    exists|i: int|
        0 <= i < members.len() && (#[trigger] members[i]).has_kv_ssd_storage && members[i].id@
            == name
}

impl View for PutSsdPlacementScope {
    type V = Set<Seq<char>>;

    closed spec fn view(&self) -> Set<Seq<char>> {
        self.capable_nodes@
    }
}

/// The node may be chosen.
pub open spec fn scope_allows(capable: Set<Seq<char>>, node: Seq<char>) -> bool {
    capable == Set::<Seq<char>>::empty() || capable.contains(node)
}

impl PutSsdPlacementScope {
    pub fn from_client_members(members: &Vec<ClusterMember>) -> (r: Self)
        ensures
            forall|n: Seq<char>| #[trigger] r@.contains(n) == has_ssd_member(members@, n),
    {
        let mut capable_nodes = NameSet::new();
        let mut i: usize = 0;
        while i < members.len()
            invariant
                i <= members@.len(),
                forall|n: Seq<char>| #[trigger]
                    capable_nodes@.contains(n) == has_ssd_member(members@.take(i as int), n),
            decreases members@.len() - i,
        {
            let member = &members[i];
            let ghost before = capable_nodes@;
            if member.has_kv_ssd_storage {
                capable_nodes.insert(member.id.clone());
            }
            proof {
                let prev = members@.take(i as int);
                let now = members@.take(i + 1);
                assert forall|n: Seq<char>| #[trigger]
                    capable_nodes@.contains(n) == has_ssd_member(now, n) by {
                    if has_ssd_member(now, n) {
                        let j = choose|j: int|
                            0 <= j < now.len() && (#[trigger] now[j]).has_kv_ssd_storage
                                && now[j].id@ == n;
                        if j < i {
                            assert(prev[j].id@ == n && prev[j].has_kv_ssd_storage);
                            assert(before.contains(n));
                        }
                    }
                    if has_ssd_member(prev, n) {
                        let j = choose|j: int|
                            0 <= j < prev.len() && (#[trigger] prev[j]).has_kv_ssd_storage
                                && prev[j].id@ == n;
                        assert(now[j].id@ == n && now[j].has_kv_ssd_storage);
                    }
                    if member.has_kv_ssd_storage && n == member.id@ {
                        assert(now[i as int].id@ == n);
                    }
                    if capable_nodes@.contains(n) && !(member.has_kv_ssd_storage && n
                        == member.id@) {
                        assert(before.contains(n));
                    }
                }
            }
            i += 1;
        }
        assert(members@.take(members@.len() as int) =~= members@);
        PutSsdPlacementScope { capable_nodes }
    }

    /// Whether only nodes with an SSD may be chosen.
    pub fn requires_ssd(&self) -> (r: bool)
        ensures
            r == (self@ != Set::<Seq<char>>::empty()),
    {
        !self.capable_nodes.is_empty()
    }

    pub fn allows_node(&self, node_id: &String) -> (r: bool)
        ensures
            r == scope_allows(self@, node_id@),
    {
        !self.requires_ssd() || self.capable_nodes.contains(node_id)
    }

    pub fn persists_to_ssd(&self, node_id: &String) -> (r: bool)
        ensures
            r == self@.contains(node_id@),
    {
        self.capable_nodes.contains(node_id)
    }
}

/// How a policy treats the node that asks.
pub trait PlacementPolicy {
    spec fn spec_local_first(&self) -> bool;

    /// Whether the node that asks is chosen before all others.
    fn local_first(&self) -> (r: bool)
        ensures
            r == self.spec_local_first(),
    ;
}

/// Prefers the node that asks.
pub struct LocalFirstPlacementPolicy;

impl LocalFirstPlacementPolicy {
    pub fn new() -> (r: Self)
        ensures
            r.spec_local_first(),
    {
        LocalFirstPlacementPolicy
    }
}

impl PlacementPolicy for LocalFirstPlacementPolicy {
    open spec fn spec_local_first(&self) -> bool {
        true
    }

    fn local_first(&self) -> (r: bool) {
        true
    }
}

/// Chooses at random.
pub struct RandomPlacementPolicy;

impl RandomPlacementPolicy {
    pub fn new() -> (r: Self)
        ensures
            !r.spec_local_first(),
    {
        RandomPlacementPolicy
    }
}

impl PlacementPolicy for RandomPlacementPolicy {
    open spec fn spec_local_first(&self) -> bool {
        false
    }

    fn local_first(&self) -> (r: bool) {
        false
    }
}

/// The policy that is used unless another is asked for.
pub type PlacementDefault = RandomPlacementPolicy;

/// Picks a number below `n` with `Rng::gen_range` of the thread's generator. Trusted: the number is
/// below `n`. Which one it is depends on chance.
#[verifier::external_body]
pub(crate) fn random_index(n: usize) -> (r: usize)
    requires
        n > 0,
    ensures
        r < n,
{
    rand::thread_rng().gen_range(0..n)
}

/// Picks one of `count` segments at random, if there are any.
pub fn pick_segment(count: usize) -> (r: Option<usize>)
    ensures
        r is None <==> count == 0,
        r matches Some(i) ==> i < count,
{
    if count == 0 {
        None
    } else {
        Some(random_index(count))
    }
}

/// The last segment that had no room.
#[derive(Debug)]
pub struct NoSpaceContext {
    pub node: String,
    pub segment: String,
    pub total_capacity: u64,
    pub free_capacity: u64,
}

/// A segment of a node's memory.
#[derive(Debug)]
pub struct SegmentInfo {
    pub node: String,
    pub segment: String,
    pub total_bytes: u64,
    pub used_bytes: u64,
}

/// What the search for a target does next.
#[derive(Debug)]
pub enum PlacementStep {
    /// The put stays on the node that asks.
    Local { persist_to_ssd: bool },
    /// Try a segment of this node.
    TryNode { node: String, persist_to_ssd: bool },
    /// Try any segment.
    TryAny,
    /// There is no room; the last segment that was tried, if any.
    NoSpace { context: Option<NoSpaceContext> },
}

/// What to do with a segment that was picked.
#[derive(Clone, Copy, Debug, PartialEq, Eq, Structural)]
pub enum SegmentChoice {
    /// The put stays on the node that asks.
    Local { persist_to_ssd: bool },
    /// Take memory from the segment at this place.
    Allocate { index: usize, persist_to_ssd: bool },
    /// There is no such segment.
    Nothing,
}

/// The search for a target.
pub struct PlacementSearch {
    local_first: bool,
    requester: String,
    local_ready: bool,
    scope: PutSsdPlacementScope,
    nodes: Vec<String>,
    next: usize,
    local_tried: bool,
    attempts: u32,
    last_no_space: Option<NoSpaceContext>,
}

/// The search, as mathematical values.
#[verifier::ext_equal]
pub struct SearchModel {
    pub local_first: bool,
    pub requester: Seq<char>,
    /// The node that asks has segments.
    pub local_ready: bool,
    pub capable: Set<Seq<char>>,
    /// The preferred nodes that have not been tried.
    pub nodes: Seq<Seq<char>>,
    pub local_tried: bool,
    pub attempts: int,
}

/// The names of a list.
pub open spec fn names(list: Seq<String>) -> Seq<Seq<char>> {
    Seq::new(list.len(), |i: int| list[i]@)
}

impl View for PlacementSearch {
    type V = SearchModel;

    closed spec fn view(&self) -> SearchModel {
        SearchModel {
            local_first: self.local_first,
            requester: self.requester@,
            local_ready: self.local_ready,
            capable: self.scope@,
            nodes: names(self.nodes@).skip(self.next as int),
            local_tried: self.local_tried,
            attempts: self.attempts as int,
        }
    }
}

/// The member is of the sub-cluster and may be chosen.
pub open spec fn preferred(
    member: ClusterMember,
    sub_cluster: Seq<char>,
    capable: Set<Seq<char>>,
) -> bool {
    &&& member.sub_cluster matches Some(sc)
    &&& sc@ == sub_cluster
    &&& scope_allows(capable, member.id@)
}

/// The members of a sub-cluster that may be chosen, in order.
pub open spec fn preferred_names(
    members: Seq<ClusterMember>,
    sub_cluster: Seq<char>,
    capable: Set<Seq<char>>,
) -> Seq<Seq<char>>
    decreases members.len(),
{
    if members.len() == 0 {
        Seq::empty()
    } else {
        let before = preferred_names(members.drop_last(), sub_cluster, capable);
        if preferred(members.last(), sub_cluster, capable) {
            before.push(members.last().id@)
        } else {
            before
        }
    }
}

fn preferred_nodes(
    members: &Vec<ClusterMember>,
    sub_cluster: &str,
    scope: &PutSsdPlacementScope,
) -> (r: Vec<String>)
    ensures
        names(r@) == preferred_names(members@, sub_cluster@, scope@),
        forall|i: int| 0 <= i < r@.len() ==> scope_allows(scope@, (#[trigger] r@[i])@),
{
    let mut r: Vec<String> = Vec::new();
    let mut i: usize = 0;
    proof {
        assert(members@.take(0) =~= Seq::empty());
        assert(names(r@) =~= Seq::empty());
    }
    while i < members.len()
        invariant
            i <= members@.len(),
            names(r@) == preferred_names(members@.take(i as int), sub_cluster@, scope@),
            forall|j: int| 0 <= j < r@.len() ==> scope_allows(scope@, (#[trigger] r@[j])@),
        decreases members@.len() - i,
    {
        let member = &members[i];
        let ghost before = r@;
        proof {
            assert(members@.take(i + 1).drop_last() =~= members@.take(i as int));
            assert(members@.take(i + 1).last() == members@[i as int]);
        }
        let of_cluster = match &member.sub_cluster {
            Some(sc) => str_eq(sc.as_str(), sub_cluster),
            None => false,
        };
        if of_cluster && scope.allows_node(&member.id) {
            r.push(member.id.clone());
            assert(names(r@) =~= names(before).push(member.id@));
        }
        i += 1;
    }
    assert(members@.take(members@.len() as int) =~= members@);
    r
}

/// The list that begins with the `start`-th element and goes round.
pub open spec fn rotated(list: Seq<Seq<char>>, start: int) -> Seq<Seq<char>> {
    list.skip(start) + list.take(start)
}

fn rotate(list: &Vec<String>, start: usize) -> (r: Vec<String>)
    requires
        start <= list@.len(),
    ensures
        names(r@) == rotated(names(list@), start as int),
        r@.len() == list@.len(),
        forall|i: int| 0 <= i < r@.len() ==> names_has(list@, (#[trigger] r@[i])@),
{
    let mut r: Vec<String> = Vec::new();
    let n: usize = list.len();
    let mut i: usize = 0;
    let ghost want = rotated(names(list@), start as int);
    while i < n
        invariant
            start <= list@.len() == n,
            i <= n,
            r@.len() == i,
            want == rotated(names(list@), start as int),
            forall|j: int| 0 <= j < i ==> (#[trigger] r@[j])@ == want[j],
            forall|j: int| 0 <= j < i ==> names_has(list@, (#[trigger] r@[j])@),
        decreases n - i,
    {
        let at: usize = if i < n - start {
            start + i
        } else {
            i - (n - start)
        };
        let ghost before = r@;
        r.push(list[at].clone());
        proof {
            assert(r@[i as int]@ == list@[at as int]@);
            assert(want[i as int] == list@[at as int]@);
            assert forall|j: int| 0 <= j < i + 1 implies names_has(list@, (#[trigger] r@[j])@) by {
                if j < i {
                    assert(r@[j]@ == before[j]@);
                }
            }
        }
        i += 1;
    }
    assert(names(r@) =~= want);
    r
}

fn contains_name(list: &Vec<String>, name: &String) -> (r: bool)
    ensures
        r == names(list@).contains(name@),
{
    let mut i: usize = 0;
    while i < list.len()
        invariant
            i <= list@.len(),
            forall|j: int| 0 <= j < i ==> #[trigger] names(list@)[j] != name@,
        decreases list@.len() - i,
    {
        if list[i] == *name {
            assert(names(list@)[i as int] == name@);
            return true;
        }
        assert(names(list@)[i as int] != name@);
        i += 1;
    }
    false
}

/// The nodes of the preferred sub-cluster that may be chosen.
pub open spec fn wanted_nodes(
    members: Seq<ClusterMember>,
    sub_cluster: Option<&str>,
    capable: Set<Seq<char>>,
) -> Seq<Seq<char>> {
    match sub_cluster {
        Some(sc) => preferred_names(members, sc@, capable),
        None => Seq::empty(),
    }
}

impl PlacementSearch {
    /// Only nodes that may be chosen are tried.
    pub closed spec fn wf(&self) -> bool {
        &&& self.next <= self.nodes@.len()
        &&& self.attempts <= RANDOM_ATTEMPTS
        &&& forall|i: int|
            0 <= i < self.nodes@.len() ==> scope_allows(
                self.scope@,
                (#[trigger] self.nodes@[i])@,
            )
    }

    /// Begins a search. Where the node that asks is of the preferred sub-cluster, and has segments
    /// or goes first, the put stays there. Otherwise the preferred nodes are tried in order,
    /// beginning with the `start`-th.
    pub fn begin_at<P: PlacementPolicy>(
        policy: &P,
        requester: &String,
        members: &Vec<ClusterMember>,
        preferred_sub_cluster: Option<&str>,
        local_ready: bool,
        start: usize,
    ) -> (r: (PlacementSearch, Option<PlacementStep>))
        ensures
            r.0.wf(),
            Self::begun_is(
                policy.spec_local_first(),
                requester@,
                members@,
                preferred_sub_cluster,
                local_ready,
                start as int,
                r.0@,
                r.1,
            ),
    {
        let local_first = policy.local_first();
        let scope = PutSsdPlacementScope::from_client_members(members);
        let wanted = match preferred_sub_cluster {
            Some(sc) => preferred_nodes(members, sc, &scope),
            None => Vec::new(),
        };
        assert(names(wanted@) =~= wanted_nodes(members@, preferred_sub_cluster, scope@));
        let stays = contains_name(&wanted, requester) && (local_first || local_ready);
        let step = if stays {
            proof {
                let i = choose|i: int|
                    0 <= i < names(wanted@).len() && names(wanted@)[i] == requester@;
                assert(scope_allows(scope@, wanted@[i]@));
            }
            Some(PlacementStep::Local { persist_to_ssd: scope.persists_to_ssd(requester) })
        } else {
            None
        };
        let ghost before = wanted@;
        let nodes = if start <= wanted.len() {
            rotate(&wanted, start)
        } else {
            wanted
        };
        let search = PlacementSearch {
            local_first,
            requester: requester.clone(),
            local_ready,
            scope,
            nodes,
            next: 0,
            local_tried: false,
            attempts: 0,
            last_no_space: None,
        };
        proof {
            assert(names(nodes@).skip(0) =~= names(nodes@));
            assert forall|i: int| 0 <= i < nodes@.len() implies scope_allows(
                search.scope@,
                (#[trigger] nodes@[i])@,
            ) by {
                if start <= before.len() {
                    assert(names_has(before, nodes@[i]@));
                    let j = choose|j: int|
                        0 <= j < before.len() && (#[trigger] before[j])@ == nodes@[i]@;
                    assert(scope_allows(search.scope@, before[j]@));
                } else {
                    assert(scope_allows(search.scope@, before[i]@));
                }
            }
        }
        (search, step)
    }

    /// Begins a search with a random one of the preferred nodes.
    pub fn begin<P: PlacementPolicy>(
        policy: &P,
        requester: &String,
        members: &Vec<ClusterMember>,
        preferred_sub_cluster: Option<&str>,
        local_ready: bool,
    ) -> (r: (PlacementSearch, Option<PlacementStep>))
        ensures
            r.0.wf(),
            exists|start: int|
                0 <= start <= wanted_nodes(members@, preferred_sub_cluster, r.0@.capable).len()
                    && #[trigger] Self::begun_is(
                    policy.spec_local_first(),
                    requester@,
                    members@,
                    preferred_sub_cluster,
                    local_ready,
                    start,
                    r.0@,
                    r.1,
                ),
    {
        let count: usize = match preferred_sub_cluster {
            Some(sc) => preferred_nodes(
                members,
                sc,
                &PutSsdPlacementScope::from_client_members(members),
            ).len(),
            None => 0,
        };
        let start: usize = if count > 0 {
            random_index(count)
        } else {
            0
        };
        let r = Self::begin_at(
            policy,
            requester,
            members,
            preferred_sub_cluster,
            local_ready,
            start,
        );
        proof {
            let wanted = wanted_nodes(members@, preferred_sub_cluster, r.0@.capable);
            let from = if start > wanted.len() {
                0
            } else {
                start as int
            };
            assert(rotated(wanted, 0) =~= wanted);
            assert(Self::begun_is(
                policy.spec_local_first(),
                requester@,
                members@,
                preferred_sub_cluster,
                local_ready,
                from,
                r.0@,
                r.1,
            ));
        }
        r
    }

    /// The first preferred node that is to be tried: a policy that does not put the node that asks
    /// first passes it over.
    pub open spec fn first_node(m: SearchModel) -> Option<int>
        decreases m.nodes.len(),
    {
        if m.nodes.len() == 0 {
            None
        } else if !m.local_first && m.nodes[0] == m.requester {
            match Self::first_node(SearchModel { nodes: m.nodes.skip(1), ..m }) {
                Some(i) => Some(i + 1),
                None => None,
            }
        } else {
            Some(0)
        }
    }

    /// The step that follows, and the search after it.
    pub open spec fn step_is(m: SearchModel, r: PlacementStep, after: SearchModel) -> bool {
        match Self::first_node(m) {
            Some(i) => {
                &&& 0 <= i < m.nodes.len()
                &&& r matches PlacementStep::TryNode { node, persist_to_ssd }
                &&& node@ == m.nodes[i]
                &&& scope_allows(m.capable, node@)
                &&& persist_to_ssd == m.capable.contains(node@)
                &&& after == (SearchModel { nodes: m.nodes.skip(i + 1), ..m })
            },
            None => {
                let tried = SearchModel {
                    nodes: Seq::empty(),
                    local_tried: m.local_first || m.local_tried,
                    ..m
                };
                if m.local_first && !m.local_tried && m.local_ready && scope_allows(
                    m.capable,
                    m.requester,
                ) {
                    &&& r == (PlacementStep::Local {
                        persist_to_ssd: m.capable.contains(m.requester),
                    })
                    &&& after == tried
                } else if m.attempts < RANDOM_ATTEMPTS {
                    &&& r is TryAny
                    &&& after == (SearchModel { attempts: m.attempts + 1, ..tried })
                } else {
                    &&& r is NoSpace
                    &&& after == tried
                }
            },
        }
    }

    /// A search begins with the `start`-th of the preferred nodes, or the put stays where it is.
    pub open spec fn begun_is(
        local_first: bool,
        requester: Seq<char>,
        members: Seq<ClusterMember>,
        preferred_sub_cluster: Option<&str>,
        local_ready: bool,
        start: int,
        m: SearchModel,
        step: Option<PlacementStep>,
    ) -> bool {
        let wanted = wanted_nodes(members, preferred_sub_cluster, m.capable);
        let stays = wanted.contains(requester) && (local_first || local_ready);
        &&& forall|n: Seq<char>| #[trigger] m.capable.contains(n) == has_ssd_member(members, n)
        &&& step matches Some(first) ==> stays && first == (PlacementStep::Local {
            persist_to_ssd: m.capable.contains(requester),
        }) && scope_allows(m.capable, requester)
        &&& step is Some <==> stays
        &&& m == (SearchModel {
            local_first,
            requester,
            local_ready,
            capable: m.capable,
            nodes: if start <= wanted.len() {
                rotated(wanted, start)
            } else {
                wanted
            },
            local_tried: false,
            attempts: 0,
        })
    }

    /// The next step of the search.
    pub fn next_step(&mut self) -> (r: PlacementStep)
        requires
            old(self).wf(),
        ensures
            final(self).wf(),
            Self::step_is(old(self)@, r, final(self)@),
            r matches PlacementStep::NoSpace { context } ==> context == old(self).last_failure(),
            !(r is NoSpace) ==> final(self).last_failure() == old(self).last_failure(),
    {
        let ghost m = self@;
        let ghost mut passed: int = 0;
        proof {
            assert(names(self.nodes@).skip(self.next as int) =~= m.nodes.skip(0));
        }
        while self.next < self.nodes.len()
            invariant
                self.wf(),
                m == old(self)@,
                self.last_failure() == old(self).last_failure(),
                0 <= passed <= m.nodes.len(),
                self@ == (SearchModel { nodes: m.nodes.skip(passed), ..m }),
                self@.nodes == names(self.nodes@).skip(self.next as int),
                match Self::first_node(self@) {
                    Some(i) => Self::first_node(m) == Some(i + passed),
                    None => Self::first_node(m) is None,
                },
            decreases self.nodes@.len() - self.next,
        {
            let ghost before = self@;
            let at: usize = self.next;
            assert(before.nodes[0] == self.nodes@[at as int]@);
            let node = self.nodes[at].clone();
            self.next = at + 1;
            proof {
                assert(names(self.nodes@).skip(at + 1) =~= before.nodes.skip(1));
                assert(m.nodes.skip(passed).skip(1) =~= m.nodes.skip(passed + 1));
                assert(self@ == (SearchModel { nodes: before.nodes.skip(1), ..m }));
            }
            if !self.local_first && node == self.requester {
                proof {
                    passed = passed + 1;
                }
                continue;
            }
            let persist_to_ssd = self.scope.persists_to_ssd(&node);
            proof {
                assert(Self::first_node(before) == Some(0int));
                assert(m.nodes[passed] == m.nodes.skip(passed)[0]);
            }
            return PlacementStep::TryNode { node, persist_to_ssd };
        }
        proof {
            assert(self@.nodes =~= Seq::empty());
        }
        if self.local_first && !self.local_tried {
            self.local_tried = true;
            if self.local_ready && self.scope.allows_node(&self.requester) {
                let persist_to_ssd = self.scope.persists_to_ssd(&self.requester);
                return PlacementStep::Local { persist_to_ssd };
            }
        }
        if self.attempts < RANDOM_ATTEMPTS {
            self.attempts = self.attempts + 1;
            return PlacementStep::TryAny;
        }
        let context = self.last_no_space.take();
        PlacementStep::NoSpace { context }
    }

    /// The last segment that had no room.
    pub closed spec fn last_failure(&self) -> Option<NoSpaceContext> {
        self.last_no_space
    }

    /// Takes note of a segment that is being tried, in case it has no room.
    pub fn segment_tried(&mut self, segment: &SegmentInfo)
        requires
            old(self).wf(),
        ensures
            final(self).wf(),
            final(self)@ == old(self)@,
            final(self).last_failure() matches Some(c) && c.node@ == segment.node@ && c.segment@
                == segment.segment@ && c.total_capacity == segment.total_bytes && c.free_capacity
                == if segment.total_bytes > segment.used_bytes {
                (segment.total_bytes - segment.used_bytes) as u64
            } else {
                0
            },
    {
        self.last_no_space = Some(
            NoSpaceContext {
                node: segment.node.clone(),
                segment: segment.segment.clone(),
                total_capacity: segment.total_bytes,
                free_capacity: segment.total_bytes.saturating_sub(segment.used_bytes),
            },
        );
    }

    /// The places of the segments on nodes that may be chosen.
    pub open spec fn allowed_segments(capable: Set<Seq<char>>, segments: Seq<SegmentInfo>, n: int) -> Seq<
        usize,
    >
        decreases n,
    {
        if n <= 0 {
            Seq::empty()
        } else if scope_allows(capable, segments[n - 1].node@) {
            Self::allowed_segments(capable, segments, n - 1).push((n - 1) as usize)
        } else {
            Self::allowed_segments(capable, segments, n - 1)
        }
    }

    /// What to do when the `pick`-th of the segments that may be chosen was picked.
    pub open spec fn choice(m: SearchModel, segments: Seq<SegmentInfo>, pick: int) -> SegmentChoice {
        let allowed = Self::allowed_segments(m.capable, segments, segments.len() as int);
        if pick >= allowed.len() {
            SegmentChoice::Nothing
        } else {
            let node = segments[allowed[pick] as int].node@;
            let persist_to_ssd = m.capable.contains(node);
            if !m.local_first && node == m.requester {
                if m.local_ready {
                    SegmentChoice::Local { persist_to_ssd }
                } else {
                    SegmentChoice::Nothing
                }
            } else {
                SegmentChoice::Allocate { index: allowed[pick], persist_to_ssd }
            }
        }
    }

    /// Some segment that may be chosen was picked, and decided about; or there is none.
    pub open spec fn chosen_is(m: SearchModel, segments: Seq<SegmentInfo>, r: SegmentChoice) -> bool {
        let count = Self::allowed_segments(m.capable, segments, segments.len() as int).len();
        exists|pick: int|
            0 <= pick && r == #[trigger] Self::choice(m, segments, pick) && (pick < count || count
                == 0)
    }

    fn allowed(&self, segments: &Vec<SegmentInfo>) -> (r: Vec<usize>)
        ensures
            r@ == Self::allowed_segments(self@.capable, segments@, segments@.len() as int),
            forall|i: int|
                0 <= i < r@.len() ==> (#[trigger] r@[i]) < segments@.len() && scope_allows(
                    self@.capable,
                    segments@[r@[i] as int].node@,
                ),
    {
        let mut r: Vec<usize> = Vec::new();
        let mut i: usize = 0;
        while i < segments.len()
            invariant
                i <= segments@.len(),
                r@ == Self::allowed_segments(self@.capable, segments@, i as int),
                forall|j: int|
                    0 <= j < r@.len() ==> (#[trigger] r@[j]) < segments@.len() && scope_allows(
                        self@.capable,
                        segments@[r@[j] as int].node@,
                    ),
            decreases segments@.len() - i,
        {
            if self.scope.allows_node(&segments[i].node) {
                r.push(i);
            }
            i += 1;
        }
        r
    }

    /// Decides about the `pick`-th of the segments that may be chosen.
    pub fn choose_segment_at(&self, segments: &Vec<SegmentInfo>, pick: usize) -> (r: SegmentChoice)
        ensures
            r == Self::choice(self@, segments@, pick as int),
            r matches SegmentChoice::Allocate { index, .. } ==> index < segments@.len()
                && scope_allows(self@.capable, segments@[index as int].node@),
            r is Local ==> scope_allows(self@.capable, self@.requester),
    {
        let allowed = self.allowed(segments);
        if pick >= allowed.len() {
            return SegmentChoice::Nothing;
        }
        let index: usize = allowed[pick];
        let node = &segments[index].node;
        let persist_to_ssd = self.scope.persists_to_ssd(node);
        if !self.local_first && *node == self.requester {
            if self.local_ready {
                return SegmentChoice::Local { persist_to_ssd };
            }
            return SegmentChoice::Nothing;
        }
        SegmentChoice::Allocate { index, persist_to_ssd }
    }

    /// Picks one of the segments that may be chosen at random.
    pub fn choose_segment(&self, segments: &Vec<SegmentInfo>) -> (r: SegmentChoice)
        ensures
            Self::chosen_is(self@, segments@, r),
            r matches SegmentChoice::Allocate { index, .. } ==> index < segments@.len()
                && scope_allows(self@.capable, segments@[index as int].node@),
            r is Local ==> scope_allows(self@.capable, self@.requester),
    {
        let count: usize = self.allowed(segments).len();
        let pick: usize = if count > 0 {
            random_index(count)
        } else {
            0
        };
        assert(Self::choice(self@, segments@, pick as int) == Self::choice(
            self@,
            segments@,
            pick as int,
        ));
        self.choose_segment_at(segments, pick)
    }
}

/// Where some member keeps values on an SSD, a node that may be chosen does so too.
pub proof fn ssd_members_restrict_targets(
    members: Seq<ClusterMember>,
    capable: Set<Seq<char>>,
    node: Seq<char>,
)
    requires
        forall|n: Seq<char>| #[trigger] capable.contains(n) == has_ssd_member(members, n),
        exists|i: int| 0 <= i < members.len() && (#[trigger] members[i]).has_kv_ssd_storage,
        scope_allows(capable, node),
    ensures
        has_ssd_member(members, node),
{
    let i = choose|i: int| 0 <= i < members.len() && (#[trigger] members[i]).has_kv_ssd_storage;
    assert(has_ssd_member(members, members[i].id@));
    assert(capable.contains(members[i].id@));
}

} // verus!
