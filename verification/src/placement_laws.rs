//! Where a put may go, whatever the policy: which nodes are tried, in which order, and when the search
//! gives up.
use vstd::prelude::*;

use crate::cluster::ClusterMember;
use crate::placement::{
    preferred_names, rotated, scope_allows, wanted_nodes, PlacementSearch, PlacementStep,
    SearchModel, SegmentChoice, SegmentInfo,
};

verus! {

/// The node may take a put: it keeps values on an SSD, or no node does.
pub open spec fn may_take(capable: Set<Seq<char>>, node: Seq<char>) -> bool {
    capable.contains(node) || forall|n: Seq<char>| !#[trigger] capable.contains(n)
}

proof fn lemma_may_take(capable: Set<Seq<char>>, node: Seq<char>)
    ensures
        scope_allows(capable, node) == may_take(capable, node),
{
    if forall|n: Seq<char>| !#[trigger] capable.contains(n) {
        assert(capable =~= Set::<Seq<char>>::empty());
    }
}

/// A member keeps values on an SSD.
pub open spec fn keeps_on_ssd(members: Seq<ClusterMember>, node: Seq<char>) -> bool {
    exists|i: int|
        0 <= i < members.len() && (#[trigger] members[i]).id@ == node
            && members[i].has_kv_ssd_storage
}

/// The node is a member of the sub-cluster that is preferred.
pub open spec fn in_sub_cluster(
    members: Seq<ClusterMember>,
    preferred: Option<&str>,
    node: Seq<char>,
) -> bool {
    preferred matches Some(sub) && exists|i: int|
        0 <= i < members.len() && (#[trigger] members[i]).id@ == node && (
        members[i].sub_cluster matches Some(sc) && sc@ == sub@)
}

proof fn lemma_preferred_names(
    members: Seq<ClusterMember>,
    sub: Seq<char>,
    capable: Set<Seq<char>>,
    node: Seq<char>,
)
    ensures
        preferred_names(members, sub, capable).contains(node) <==> may_take(capable, node) && exists|
            i: int,
        |
            0 <= i < members.len() && (#[trigger] members[i]).id@ == node && (
            members[i].sub_cluster matches Some(sc) && sc@ == sub),
    decreases members.len(),
{
    lemma_may_take(capable, node);
    if members.len() > 0 {
        let less = members.drop_last();
        let last = members.last();
        lemma_preferred_names(less, sub, capable, node);
        let before = preferred_names(less, sub, capable);
        let all = preferred_names(members, sub, capable);
        if exists|i: int|
            0 <= i < members.len() && (#[trigger] members[i]).id@ == node && (
            members[i].sub_cluster matches Some(sc) && sc@ == sub) {
            let i = choose|i: int|
                0 <= i < members.len() && (#[trigger] members[i]).id@ == node && (
                members[i].sub_cluster matches Some(sc) && sc@ == sub);
            if i < less.len() {
                assert(less[i] == members[i]);
                if may_take(capable, node) {
                    let j = choose|j: int| 0 <= j < before.len() && before[j] == node;
                    assert(all[j] == node);
                }
            } else if may_take(capable, node) {
                assert(all.last() == node);
                assert(all[all.len() - 1] == node);
            }
        }
        if all.contains(node) {
            let j = choose|j: int| 0 <= j < all.len() && all[j] == node;
            if j < before.len() {
                assert(before[j] == node);
                assert(before.contains(node));
                let i = choose|i: int|
                    0 <= i < less.len() && (#[trigger] less[i]).id@ == node && (
                    less[i].sub_cluster matches Some(sc) && sc@ == sub);
                assert(members[i] == less[i]);
            } else {
                assert(members[members.len() - 1].id@ == node);
            }
        }
    }
}

proof fn lemma_rotated(list: Seq<Seq<char>>, start: int, node: Seq<char>)
    requires
        0 <= start <= list.len(),
    ensures
        rotated(list, start).contains(node) <==> list.contains(node),
        rotated(list, start).len() == list.len(),
{
    let r = rotated(list, start);
    if list.contains(node) {
        let i = choose|i: int| 0 <= i < list.len() && list[i] == node;
        if i < start {
            assert(r[i + list.len() - start] == node);
        } else {
            assert(r[i - start] == node);
        }
    }
    if r.contains(node) {
        let i = choose|i: int| 0 <= i < r.len() && r[i] == node;
        if i < list.len() - start {
            assert(list[i + start] == node);
        } else {
            assert(list[i - (list.len() - start)] == node);
        }
    }
}

/// A search begins with the members of the preferred sub-cluster that may take a put, all of them and no
/// others. The put stays with the requester at once exactly if the requester is one of them and is
/// ready, or goes first anyway.
pub proof fn a_search_begins_with_the_preferred_nodes(
    local_first: bool,
    requester: Seq<char>,
    members: Seq<ClusterMember>,
    preferred: Option<&str>,
    local_ready: bool,
    start: int,
    m: SearchModel,
    step: Option<PlacementStep>,
)
    requires
        0 <= start,
        PlacementSearch::begun_is(
            local_first,
            requester,
            members,
            preferred,
            local_ready,
            start,
            m,
            step,
        ),
    ensures
        forall|n: Seq<char>| #[trigger] m.capable.contains(n) <==> keeps_on_ssd(members, n),
        forall|n: Seq<char>| #[trigger]
            m.nodes.contains(n) <==> in_sub_cluster(members, preferred, n) && may_take(m.capable, n),
        step is Some <==> in_sub_cluster(members, preferred, requester) && may_take(
            m.capable,
            requester,
        ) && (local_first || local_ready),
        step matches Some(first) ==> first == (PlacementStep::Local {
            persist_to_ssd: keeps_on_ssd(members, requester),
        }),
        m.local_first == local_first,
        m.requester == requester,
        m.local_ready == local_ready,
        m.attempts == 0,
{
    assert forall|n: Seq<char>| #[trigger] m.capable.contains(n) <==> keeps_on_ssd(members, n) by {
        assert(m.capable.contains(n) == crate::placement::has_ssd_member(members, n));
        if keeps_on_ssd(members, n) {
            let i = choose|i: int|
                0 <= i < members.len() && (#[trigger] members[i]).id@ == n
                    && members[i].has_kv_ssd_storage;
            assert(members[i].has_kv_ssd_storage && members[i].id@ == n);
        }
    }
    let wanted = wanted_nodes(members, preferred, m.capable);
    assert forall|n: Seq<char>| #[trigger] wanted.contains(n) <==> in_sub_cluster(
        members,
        preferred,
        n,
    ) && may_take(m.capable, n) by {
        if let Some(sub) = preferred {
            lemma_preferred_names(members, sub@, m.capable, n);
        }
    }
    assert forall|n: Seq<char>| #[trigger] m.nodes.contains(n) <==> wanted.contains(n) by {
        if start <= wanted.len() {
            lemma_rotated(wanted, start, n);
        }
    }
}

/// A search goes on step by step: `models[0]` is its beginning.
pub open spec fn placement_run(models: Seq<SearchModel>, steps: Seq<PlacementStep>) -> bool {
    &&& models.len() == steps.len() + 1
    &&& models[0].attempts == 0
    &&& !models[0].local_tried
    &&& forall|i: int|
        0 <= i < steps.len() ==> PlacementSearch::step_is(
            #[trigger] models[i],
            steps[i],
            models[i + 1],
        )
}

/// The number of steps that try any segment.
pub open spec fn random_tries(steps: Seq<PlacementStep>) -> int
    decreases steps.len(),
{
    if steps.len() == 0 {
        0
    } else {
        random_tries(steps.drop_last()) + if steps.last() is TryAny {
            1int
        } else {
            0int
        }
    }
}

/// One of the steps tried this node.
pub open spec fn tried(steps: Seq<PlacementStep>, node: Seq<char>) -> bool {
    exists|i: int|
        0 <= i < steps.len() && (#[trigger] steps[i] matches PlacementStep::TryNode { node: n, .. }
            && n@ == node)
}

proof fn lemma_first_node(m: SearchModel)
    ensures
        match PlacementSearch::first_node(m) {
            Some(i) => {
                &&& 0 <= i < m.nodes.len()
                &&& m.local_first || m.nodes[i] != m.requester
                &&& forall|j: int|
                    0 <= j < i ==> #[trigger] m.nodes[j] == m.requester && !m.local_first
            },
            None => forall|j: int|
                0 <= j < m.nodes.len() ==> #[trigger] m.nodes[j] == m.requester && !m.local_first,
        },
    decreases m.nodes.len(),
{
    if m.nodes.len() > 0 && !m.local_first && m.nodes[0] == m.requester {
        let rest = SearchModel { nodes: m.nodes.skip(1), ..m };
        lemma_first_node(rest);
        match PlacementSearch::first_node(rest) {
            Some(i) => {
                assert forall|j: int| 0 <= j < i + 1 implies #[trigger] m.nodes[j] == m.requester
                    && !m.local_first by {
                    if j > 0 {
                        assert(rest.nodes[j - 1] == m.nodes[j]);
                    }
                }
                assert(rest.nodes[i] == m.nodes[i + 1]);
            },
            None => {
                assert forall|j: int| 0 <= j < m.nodes.len() implies #[trigger] m.nodes[j]
                    == m.requester && !m.local_first by {
                    if j > 0 {
                        assert(rest.nodes[j - 1] == m.nodes[j]);
                    }
                }
            },
        }
    }
}

proof fn lemma_run(models: Seq<SearchModel>, steps: Seq<PlacementStep>)
    requires
        placement_run(models, steps),
    ensures
        models.last().capable == models[0].capable,
        models.last().requester == models[0].requester,
        models.last().local_first == models[0].local_first,
        models.last().local_ready == models[0].local_ready,
        models.last().attempts == random_tries(steps),
        0 <= random_tries(steps) <= 3,
        forall|n: Seq<char>| #[trigger]
            models[0].nodes.contains(n) ==> {
                ||| tried(steps, n)
                ||| models.last().nodes.contains(n)
                ||| n == models[0].requester && !models[0].local_first
            },
        forall|n: Seq<char>| #[trigger]
            models.last().nodes.contains(n) ==> models[0].nodes.contains(n),
        forall|i: int|
            0 <= i < steps.len() && (#[trigger] steps[i] is TryAny || steps[i] is NoSpace
                || steps[i] is Local) ==> models.last().nodes.len() == 0,
        random_tries(steps) > 0 && models[0].local_first ==> models.last().local_tried,
    decreases steps.len(),
{
    if steps.len() == 0 {
    } else {
        let n = steps.len() - 1;
        let less = models.drop_last();
        let rest = steps.drop_last();
        assert forall|i: int| 0 <= i < rest.len() implies PlacementSearch::step_is(
            #[trigger] less[i],
            rest[i],
            less[i + 1],
        ) by {
            assert(PlacementSearch::step_is(models[i], steps[i], models[i + 1]));
        }
        lemma_run(less, rest);
        let (a, step, b) = (models[n as int], steps[n as int], models[n + 1]);
        assert(less.last() == a);
        assert(PlacementSearch::step_is(models[n as int], step, b));
        lemma_first_node(a);
        assert forall|x: Seq<char>| tried(rest, x) implies #[trigger] tried(steps, x) by {
            let i = choose|i: int|
                0 <= i < rest.len() && (#[trigger] rest[i] matches PlacementStep::TryNode {
                    node,
                    ..
                } && node@ == x);
            assert(steps[i] == rest[i]);
        }
        assert forall|x: Seq<char>| #[trigger] b.nodes.contains(x) implies a.nodes.contains(x) by {
            if let Some(i) = PlacementSearch::first_node(a) {
                let j = choose|j: int| 0 <= j < b.nodes.len() && b.nodes[j] == x;
                assert(a.nodes[j + i + 1] == x);
            }
        }
        assert forall|x: Seq<char>| #[trigger] models[0].nodes.contains(x) implies {
            ||| tried(steps, x)
            ||| b.nodes.contains(x)
            ||| x == models[0].requester && !models[0].local_first
        } by {
            if tried(rest, x) {
                assert(tried(steps, x));
            } else if a.nodes.contains(x) {
                let j = choose|j: int| 0 <= j < a.nodes.len() && a.nodes[j] == x;
                if let Some(i) = PlacementSearch::first_node(a) {
                    if j == i {
                        assert(steps[n as int] matches PlacementStep::TryNode { node, .. } && node@ == x);
                        assert(tried(steps, x));
                    } else if j > i {
                        assert(b.nodes[j - i - 1] == x);
                    }
                }
            }
        }
        assert forall|i: int|
            0 <= i < steps.len() && (#[trigger] steps[i] is TryAny || steps[i] is NoSpace
                || steps[i] is Local) implies b.nodes.len() == 0 by {
            if i < n {
                assert(rest[i] == steps[i]);
            }
        }
    }
}

/// Every preferred node is tried before any segment is tried at random, and before the search gives up;
/// only the requester is passed over, by a policy that does not put it first. Nodes that may not take a
/// put are never tried.
pub proof fn preferred_nodes_come_first(models: Seq<SearchModel>, steps: Seq<PlacementStep>)
    requires
        placement_run(models, steps),
        steps.len() > 0,
        forall|n: Seq<char>| #[trigger]
            models[0].nodes.contains(n) ==> may_take(models[0].capable, n),
    ensures
        steps.last() is TryAny || steps.last() is NoSpace ==> forall|n: Seq<char>| #[trigger]
            models[0].nodes.contains(n) ==> tried(steps, n) || n == models[0].requester
                && !models[0].local_first,
        steps.last() matches PlacementStep::TryNode { node, persist_to_ssd } ==> {
            &&& models[0].nodes.contains(node@)
            &&& may_take(models[0].capable, node@)
            &&& persist_to_ssd == models[0].capable.contains(node@)
            &&& models[0].local_first || node@ != models[0].requester
        },
        steps.last() matches PlacementStep::Local { persist_to_ssd } ==> {
            &&& may_take(models[0].capable, models[0].requester)
            &&& persist_to_ssd == models[0].capable.contains(models[0].requester)
            &&& models[0].local_first && models[0].local_ready
        },
{
    let n = steps.len() - 1;
    lemma_run(models, steps);
    let (a, step) = (models[n as int], steps[n as int]);
    let (less, rest) = (models.drop_last(), steps.drop_last());
    assert forall|i: int| 0 <= i < rest.len() implies PlacementSearch::step_is(
        #[trigger] less[i],
        rest[i],
        less[i + 1],
    ) by {
        assert(PlacementSearch::step_is(models[i], steps[i], models[i + 1]));
    }
    lemma_run(less, rest);
    assert(less.last() == a);
    assert(PlacementSearch::step_is(models[n as int], step, models[n + 1]));
    lemma_first_node(a);
    lemma_may_take(a.capable, a.requester);
    if let Some(i) = PlacementSearch::first_node(a) {
        lemma_may_take(a.capable, a.nodes[i]);
        assert(a.nodes.contains(a.nodes[i]));
    }
}

/// A search tries at random three times, no more, and gives up only then. A policy that puts the
/// requester first keeps the put there before it tries at random, if the requester is ready and may take
/// it.
pub proof fn a_search_gives_up_after_three_random_tries(
    models: Seq<SearchModel>,
    steps: Seq<PlacementStep>,
)
    requires
        placement_run(models, steps),
        steps.len() > 0,
    ensures
        random_tries(steps) <= 3,
        steps.last() is NoSpace ==> random_tries(steps) == 3,
        (steps.last() is TryAny || steps.last() is NoSpace) && models[0].local_first
            && models[0].local_ready && may_take(models[0].capable, models[0].requester)
            ==> exists|i: int| 0 <= i < steps.len() && (#[trigger] steps[i]) is Local,
    decreases steps.len(),
{
    lemma_run(models, steps);
    let n = steps.len() - 1;
    let (a, step) = (models[n as int], steps[n as int]);
    assert(PlacementSearch::step_is(models[n as int], step, models[n + 1]));
    let (less, rest) = (models.drop_last(), steps.drop_last());
    assert forall|i: int| 0 <= i < rest.len() implies PlacementSearch::step_is(
        #[trigger] less[i],
        rest[i],
        less[i + 1],
    ) by {
        assert(PlacementSearch::step_is(models[i], steps[i], models[i + 1]));
    }
    lemma_run(less, rest);
    assert(less.last() == a);
    lemma_may_take(a.capable, a.requester);
    if (step is TryAny || step is NoSpace) && a.local_first && a.local_ready && may_take(
        a.capable,
        a.requester,
    ) {
        assert(a.local_tried);
        lemma_local_was_tried(less, rest);
        let i = choose|i: int| 0 <= i < rest.len() && (#[trigger] rest[i]) is Local;
        assert(steps[i] is Local);
    }
}

/// The requester counts as tried only after the put was to stay with it.
proof fn lemma_local_was_tried(models: Seq<SearchModel>, steps: Seq<PlacementStep>)
    requires
        placement_run(models, steps),
        models.last().local_tried,
        models[0].local_first,
        models[0].local_ready,
        may_take(models[0].capable, models[0].requester),
    ensures
        exists|i: int| 0 <= i < steps.len() && (#[trigger] steps[i]) is Local,
    decreases steps.len(),
{
    if steps.len() > 0 {
        let n = steps.len() - 1;
        let (less, rest) = (models.drop_last(), steps.drop_last());
        assert forall|i: int| 0 <= i < rest.len() implies PlacementSearch::step_is(
            #[trigger] less[i],
            rest[i],
            less[i + 1],
        ) by {
            assert(PlacementSearch::step_is(models[i], steps[i], models[i + 1]));
        }
        lemma_run(less, rest);
        assert(PlacementSearch::step_is(models[n as int], steps[n as int], models[n + 1]));
        let a = models[n as int];
        lemma_may_take(a.capable, a.requester);
        if a.local_tried {
            lemma_local_was_tried(less, rest);
            let i = choose|i: int| 0 <= i < rest.len() && (#[trigger] rest[i]) is Local;
            assert(steps[i] is Local);
        } else {
            assert(steps[n as int] is Local);
        }
    }
}

proof fn lemma_allowed_segments(capable: Set<Seq<char>>, segments: Seq<SegmentInfo>, n: int, i: int)
    requires
        0 <= n <= segments.len() <= usize::MAX,
        0 <= i < n,
    ensures
        PlacementSearch::allowed_segments(capable, segments, n).contains(i as usize)
            <==> may_take(capable, segments[i].node@),
    decreases n,
{
    let all = PlacementSearch::allowed_segments(capable, segments, n);
    let less = PlacementSearch::allowed_segments(capable, segments, n - 1);
    lemma_may_take(capable, segments[n - 1].node@);
    lemma_allowed_below(capable, segments, n - 1);
    if i < n - 1 {
        lemma_allowed_segments(capable, segments, n - 1, i);
        if less.contains(i as usize) {
            let j = choose|j: int| 0 <= j < less.len() && less[j] == i as usize;
            assert(all[j] == i as usize);
        }
        if all.contains(i as usize) {
            let j = choose|j: int| 0 <= j < all.len() && all[j] == i as usize;
            assert(less[j] == i as usize);
        }
    } else if may_take(capable, segments[i].node@) {
        assert(all.last() == i as usize);
        assert(all[all.len() - 1] == i as usize);
    } else if all.contains(i as usize) {
        let j = choose|j: int| 0 <= j < all.len() && all[j] == i as usize;
        assert(less[j] < n - 1);
    }
}

proof fn lemma_allowed_below(capable: Set<Seq<char>>, segments: Seq<SegmentInfo>, n: int)
    requires
        0 <= n <= segments.len() <= usize::MAX,
    ensures
        forall|j: int|
            0 <= j < PlacementSearch::allowed_segments(capable, segments, n).len() ==> (
            #[trigger] PlacementSearch::allowed_segments(capable, segments, n)[j]) < n && may_take(
                capable,
                segments[PlacementSearch::allowed_segments(capable, segments, n)[j] as int].node@,
            ),
    decreases n,
{
    if n > 0 {
        lemma_allowed_below(capable, segments, n - 1);
        lemma_may_take(capable, segments[n - 1].node@);
        let all = PlacementSearch::allowed_segments(capable, segments, n);
        let less = PlacementSearch::allowed_segments(capable, segments, n - 1);
        assert forall|j: int| 0 <= j < all.len() implies (#[trigger] all[j]) < n && may_take(
            capable,
            segments[all[j] as int].node@,
        ) by {
            if j < less.len() {
                assert(all[j] == less[j]);
            }
        }
    }
}

/// The segment that is picked decides: one on the requester's own node keeps the put there, unless the
/// policy puts the requester first; any other one is asked for memory. There is nothing to decide only
/// if no segment lies on a node that may take the put, or if the requester's own segment was picked
/// although the requester is not ready.
pub proof fn a_segment_is_chosen_if_there_is_one(
    m: SearchModel,
    segments: Seq<SegmentInfo>,
    r: SegmentChoice,
)
    requires
        segments.len() <= usize::MAX,
        PlacementSearch::chosen_is(m, segments, r),
    ensures
        match r {
            SegmentChoice::Allocate { index, persist_to_ssd } => {
                &&& index < segments.len()
                &&& may_take(m.capable, segments[index as int].node@)
                &&& persist_to_ssd == m.capable.contains(segments[index as int].node@)
                &&& m.local_first || segments[index as int].node@ != m.requester
            },
            SegmentChoice::Local { persist_to_ssd } => {
                &&& !m.local_first && m.local_ready
                &&& may_take(m.capable, m.requester)
                &&& persist_to_ssd == m.capable.contains(m.requester)
                &&& exists|i: int|
                    0 <= i < segments.len() && (#[trigger] segments[i]).node@ == m.requester
            },
            SegmentChoice::Nothing => {
                ||| forall|i: int|
                    0 <= i < segments.len() ==> !may_take(
                        m.capable,
                        (#[trigger] segments[i]).node@,
                    )
                ||| !m.local_ready && !m.local_first
            },
        },
        (m.local_ready || m.local_first) && (exists|i: int|
            0 <= i < segments.len() && may_take(m.capable, (#[trigger] segments[i]).node@))
            ==> !(r is Nothing),
{
    let n = segments.len() as int;
    let allowed = PlacementSearch::allowed_segments(m.capable, segments, n);
    lemma_allowed_below(m.capable, segments, n);
    let pick = choose|pick: int|
        0 <= pick && r == #[trigger] PlacementSearch::choice(m, segments, pick) && (pick
            < allowed.len() || allowed.len() == 0);
    if pick < allowed.len() {
        assert(allowed[pick] < n);
        assert(segments[allowed[pick] as int].node@ == segments[allowed[pick] as int].node@);
    }
    if allowed.len() == 0 {
        assert forall|i: int| 0 <= i < n implies !may_take(
            m.capable,
            (#[trigger] segments[i]).node@,
        ) by {
            lemma_allowed_segments(m.capable, segments, n, i);
        }
    }
}

/// Every segment on a node that may take the put can be picked.
pub proof fn every_segment_can_be_picked(m: SearchModel, segments: Seq<SegmentInfo>, i: int)
    requires
        segments.len() <= usize::MAX,
        0 <= i < segments.len(),
        may_take(m.capable, segments[i].node@),
        m.local_first || m.local_ready || segments[i].node@ != m.requester,
    ensures
        exists|pick: int|
            0 <= pick && #[trigger] PlacementSearch::choice(m, segments, pick) == if !m.local_first
                && segments[i].node@ == m.requester {
                SegmentChoice::Local { persist_to_ssd: m.capable.contains(m.requester) }
            } else {
                SegmentChoice::Allocate {
                    index: i as usize,
                    persist_to_ssd: m.capable.contains(segments[i].node@),
                }
            },
{
    let n = segments.len() as int;
    let allowed = PlacementSearch::allowed_segments(m.capable, segments, n);
    lemma_allowed_segments(m.capable, segments, n, i);
    let pick = choose|pick: int| 0 <= pick < allowed.len() && allowed[pick] == i as usize;
    assert(PlacementSearch::choice(m, segments, pick) == if !m.local_first && segments[i].node@
        == m.requester {
        SegmentChoice::Local { persist_to_ssd: m.capable.contains(m.requester) }
    } else {
        SegmentChoice::Allocate {
            index: i as usize,
            persist_to_ssd: m.capable.contains(segments[i].node@),
        }
    });
}

} // verus!
