//! How copies wait to be reclaimed: what is tried again, when, and what is done with.
use vstd::arithmetic::power2::{lemma2_to64, lemma_pow2_strictly_increases, lemma_pow2_unfold};
use vstd::prelude::*;

use crate::cache_policy::{pending_of, EvictionReclaimCounters};
use crate::reclaim::{
    asked_before, batch_delay_is, first_requests, repeated_weight, retry_delay_ms, settled,
    EvictionReclaimRequest, ReserveScan, RetryStep, SettleModel,
};
use crate::reclaim_laws::free_to_go;
use crate::recoverability::Routes;

verus! {

/// A tenth of a second passes before the first two tries, twice as long before each further one, and never
/// more than a second.
pub proof fn delays_double_up_to_a_second(n: int)
    requires
        0 <= n,
    ensures
        retry_delay_ms(0) == 100,
        retry_delay_ms(1) == 100,
        100 <= retry_delay_ms(n) <= 1000,
        1 <= n ==> retry_delay_ms(n + 1) == if 2 * retry_delay_ms(n) < 1000 {
            2 * retry_delay_ms(n)
        } else {
            1000
        },
{
    lemma2_to64();
    let k: nat = if n - 1 < 16 && n >= 1 {
        (n - 1) as nat
    } else if n < 1 {
        0
    } else {
        16
    };
    if k > 4 {
        lemma_pow2_strictly_increases(4, k);
    }
    lemma_pow2_unfold(k + 1);
    if k < 4 {
        assert(k == 0 || k == 1 || k == 2 || k == 3);
    }
}

proof fn lemma_delays_grow(a: int, b: int)
    requires
        0 <= a <= b,
    ensures
        retry_delay_ms(a) <= retry_delay_ms(b),
    decreases b - a,
{
    if a < b {
        lemma_delays_grow(a, b - 1);
        delays_double_up_to_a_second(b - 1);
    }
}

/// Copies that are tried again together wait as long as the one that waits longest, and none waits
/// more than a second.
pub proof fn none_is_tried_too_early(delayed: Seq<EvictionReclaimRequest>, r: u64)
    requires
        batch_delay_is(delayed, r),
    ensures
        100 <= r <= 1000,
        forall|i: int|
            0 <= i < delayed.len() ==> retry_delay_ms((#[trigger] delayed[i]).retry_count as int) <= r,
        delayed.len() > 0 ==> exists|i: int|
            0 <= i < delayed.len() && r == retry_delay_ms((#[trigger] delayed[i]).retry_count as int),
{
    let n = choose|n: u32|
        {
            &&& r == #[trigger] retry_delay_ms(n as int)
            &&& forall|i: int| 0 <= i < delayed.len() ==> (#[trigger] delayed[i]).retry_count <= n
            &&& if delayed.len() == 0 {
                n == 1
            } else {
                exists|i: int| 0 <= i < delayed.len() && (#[trigger] delayed[i]).retry_count == n
            }
        };
    delays_double_up_to_a_second(n as int);
    assert forall|i: int| 0 <= i < delayed.len() implies retry_delay_ms(
        (#[trigger] delayed[i]).retry_count as int,
    ) <= r by {
        lemma_delays_grow(delayed[i].retry_count as int, n as int);
    }
}

/// A copy that waited is tried again exactly if it may still go; otherwise it is done with, and no longer
/// waits.
pub proof fn a_copy_is_tried_again_while_it_may_go(
    request: EvictionReclaimRequest,
    routes: Routes,
    weights: Map<Seq<char>, u64>,
    counters: EvictionReclaimCounters,
    r: bool,
    weights_after: Map<Seq<char>, u64>,
    counters_after: EvictionReclaimCounters,
)
    requires
        request.delay_settled(routes, weights, counters, r, weights_after, counters_after),
        request.pending(weights),
    ensures
        r <==> free_to_go(routes, request.owner_node_id@, request.key@, request.desc.put_id),
        r ==> counters_after == counters,
        pending_of(weights_after, request.owner_node_id@) == pending_of(
            weights,
            request.owner_node_id@,
        ) - if r {
            0
        } else {
            request.desc.weight_bytes as int
        },
        forall|o: Seq<char>|
            o != request.owner_node_id@ ==> #[trigger] pending_of(weights_after, o) == pending_of(
                weights,
                o,
            ),
        !r && counters.route_changed < u64::MAX ==> counters_after.route_changed
            == counters.route_changed + 1,
        !r && counters.retry_completed < u64::MAX ==> counters_after.retry_completed
            == counters.retry_completed + 1,
        counters_after.retry_restored == counters.retry_restored,
{
}

/// When the queue closes, a copy that waited no longer does, whether it went back into the cache or not.
pub proof fn nothing_waits_in_a_closed_queue(
    request: EvictionReclaimRequest,
    restored: bool,
    weights: Map<Seq<char>, u64>,
    counters: EvictionReclaimCounters,
    weights_after: Map<Seq<char>, u64>,
    counters_after: EvictionReclaimCounters,
)
    requires
        request.closing_settled(restored, weights, counters, weights_after, counters_after),
        request.pending(weights),
    ensures
        pending_of(weights_after, request.owner_node_id@) == pending_of(
            weights,
            request.owner_node_id@,
        ) - request.desc.weight_bytes,
        forall|o: Seq<char>|
            o != request.owner_node_id@ ==> #[trigger] pending_of(weights_after, o) == pending_of(
                weights,
                o,
            ),
        counters.retry_completed < u64::MAX ==> counters_after.retry_completed
            == counters.retry_completed + 1,
        counters.retry_restored < u64::MAX ==> counters_after.retry_restored
            == counters.retry_restored + if restored {
            1int
        } else {
            0
        },
        counters_after.route_changed == counters.route_changed,
{
}

/// A copy that could not be reclaimed counts once each time: as changed and completed, as queued once more, or not
/// at all while it is put back into the cache; then as restored and completed, or as before.
pub proof fn each_try_counts_once(
    request: EvictionReclaimRequest,
    routes: Routes,
    weights: Map<Seq<char>, u64>,
    counters: EvictionReclaimCounters,
    r: RetryStep,
    after: EvictionReclaimRequest,
    weights_after: Map<Seq<char>, u64>,
    counters_after: EvictionReclaimCounters,
    restored: bool,
    s: RetryStep,
    weights_settled: Map<Seq<char>, u64>,
    counters_settled: EvictionReclaimCounters,
)
    requires
        request.retried(routes, weights, counters, r, after, weights_after, counters_after),
        request.restore_settled(
            restored,
            routes,
            weights,
            counters,
            s,
            weights_settled,
            counters_settled,
        ),
        counters.route_changed < u64::MAX,
        counters.retry_completed < u64::MAX,
        counters.retry_queued < u64::MAX,
        counters.retry_restored < u64::MAX,
    ensures
        r == RetryStep::TryRestore ==> counters_after == counters && weights_after == weights,
        r == RetryStep::Delay ==> counters_after.retry_queued == counters.retry_queued + 1
            && counters_after.retry_completed == counters.retry_completed
            && counters_after.route_changed == counters.route_changed && weights_after == weights,
        r == RetryStep::Finished ==> counters_after.route_changed == counters.route_changed + 1
            && counters_after.retry_completed == counters.retry_completed + 1
            && counters_after.retry_queued == counters.retry_queued,
        counters_after.retry_restored == counters.retry_restored,
        restored ==> counters_settled.retry_restored == counters.retry_restored + 1
            && counters_settled.route_changed == counters.route_changed,
        !restored ==> counters_settled.retry_restored == counters.retry_restored,
        s == RetryStep::Finished ==> counters_settled.retry_completed == counters.retry_completed + 1
            && counters_settled.retry_queued == counters.retry_queued,
        s == RetryStep::Finished && !restored ==> counters_settled.route_changed
            == counters.route_changed + 1,
        s == RetryStep::Delay ==> counters_settled.retry_queued == counters.retry_queued + 1
            && counters_settled.retry_completed == counters.retry_completed
            && counters_settled.route_changed == counters.route_changed && weights_settled == weights,
        counters_after.completed == counters.completed,
        counters_settled.completed == counters.completed,
{
}

/// The weight of the requests at some places.
pub open spec fn weight_at(requests: Seq<EvictionReclaimRequest>, places: Seq<int>) -> int
    decreases places.len(),
{
    if places.len() == 0 {
        0
    } else {
        weight_at(requests, places.drop_last()) + requests[places.last()].desc.weight_bytes
    }
}

/// The weight of the first `n` requests.
pub open spec fn weight_of(requests: Seq<EvictionReclaimRequest>, n: int) -> int
    decreases n,
{
    if n <= 0 {
        0
    } else {
        weight_of(requests, n - 1) + requests[n - 1].desc.weight_bytes
    }
}

/// The two requests are for the same version of the same key.
pub open spec fn same_version(a: EvictionReclaimRequest, b: EvictionReclaimRequest) -> bool {
    a.key@ == b.key@ && a.desc.put_id == b.desc.put_id
}

/// The request, or an earlier one for the same version of the same key, is at one of the places.
pub open spec fn stood_for(
    requests: Seq<EvictionReclaimRequest>,
    places: Seq<int>,
    h: int,
) -> bool {
    exists|i: int|
        0 <= i < places.len() && #[trigger] places[i] <= h && same_version(
            requests[places[i]],
            requests[h],
        )
}

proof fn lemma_firsts_differ(requests: Seq<EvictionReclaimRequest>, n: int)
    requires
        0 <= n <= requests.len(),
    ensures
        ({
            let firsts = first_requests(requests, n);
            &&& forall|i: int| 0 <= i < firsts.len() ==> 0 <= #[trigger] firsts[i] < n
            &&& forall|i: int, j: int|
                0 <= i < j < firsts.len() ==> #[trigger] firsts[i] < #[trigger] firsts[j]
                    && !same_version(requests[firsts[i]], requests[firsts[j]])
        }),
    decreases n,
{
    if n > 0 {
        lemma_firsts_differ(requests, n - 1);
        let before = first_requests(requests, n - 1);
        let firsts = first_requests(requests, n);
        let at = n - 1;
        if !asked_before(requests, at) {
            assert forall|i: int, j: int| 0 <= i < j < firsts.len() implies #[trigger] firsts[i]
                < #[trigger] firsts[j] && !same_version(requests[firsts[i]], requests[firsts[j]]) by {
                let e = before[i];
                assert(firsts[i] == e);
                if j < before.len() {
                    assert(firsts[j] == before[j]);
                } else {
                    assert(0 <= e < at);
                    assert(requests[e].key@ == requests[e].key@);
                }
            }
        }
    }
}

proof fn lemma_firsts_stand_for_all(requests: Seq<EvictionReclaimRequest>, n: int, h: int)
    requires
        0 <= h < n <= requests.len(),
    ensures
        stood_for(requests, first_requests(requests, n), h),
    decreases n, h,
{
    let before = first_requests(requests, n - 1);
    let firsts = first_requests(requests, n);
    let at = n - 1;
    if h < at {
        lemma_firsts_stand_for_all(requests, at, h);
        let i = choose|i: int|
            0 <= i < before.len() && #[trigger] before[i] <= h && same_version(
                requests[before[i]],
                requests[h],
            );
        assert(firsts[i] == before[i]);
    } else if asked_before(requests, at) {
        let j = choose|j: int|
            0 <= j < at && (#[trigger] requests[j]).key@ == requests[at].key@
                && requests[j].desc.put_id == requests[at].desc.put_id;
        lemma_firsts_stand_for_all(requests, at, j);
        let i = choose|i: int|
            0 <= i < before.len() && #[trigger] before[i] <= j && same_version(
                requests[before[i]],
                requests[j],
            );
        assert(firsts[i] == before[i]);
    } else {
        assert(firsts[firsts.len() - 1] == at);
    }
}

proof fn lemma_no_weight_is_lost(requests: Seq<EvictionReclaimRequest>, n: int)
    requires
        0 <= n <= requests.len(),
    ensures
        weight_at(requests, first_requests(requests, n)) + repeated_weight(requests, n)
            == weight_of(requests, n),
    decreases n,
{
    if n > 0 {
        lemma_no_weight_is_lost(requests, n - 1);
        let before = first_requests(requests, n - 1);
        if !asked_before(requests, n - 1) {
            assert(before.push(n - 1).drop_last() =~= before);
        }
    }
}

/// Of the requests for one version of a key exactly the first is taken up; the weight of the others is
/// done with, so that no weight is lost.
pub proof fn each_version_is_taken_up_once(requests: Seq<EvictionReclaimRequest>)
    ensures
        ({
            let n = requests.len() as int;
            let firsts = first_requests(requests, n);
            &&& forall|i: int| 0 <= i < firsts.len() ==> 0 <= #[trigger] firsts[i] < n
            &&& forall|i: int, j: int|
                0 <= i < j < firsts.len() ==> #[trigger] firsts[i] < #[trigger] firsts[j]
                    && !same_version(requests[firsts[i]], requests[firsts[j]])
            &&& forall|h: int| 0 <= h < n ==> #[trigger] stood_for(requests, firsts, h)
            &&& weight_at(requests, firsts) + repeated_weight(requests, n) == weight_of(requests, n)
        }),
{
    let n = requests.len() as int;
    lemma_firsts_differ(requests, n);
    lemma_no_weight_is_lost(requests, n);
    assert forall|h: int| 0 <= h < n implies #[trigger] stood_for(
        requests,
        first_requests(requests, n),
        h,
    ) by {
        lemma_firsts_stand_for_all(requests, n, h);
    }
}

/// Places in a batch, as integers.
pub open spec fn as_ints(places: Seq<usize>) -> Seq<int> {
    Seq::new(places.len(), |i: int| places[i] as int)
}

/// The copy of the request may still go.
pub open spec fn may_still_go(routes: Routes, request: EvictionReclaimRequest) -> bool {
    free_to_go(routes, request.owner_node_id@, request.key@, request.desc.put_id)
}

/// After an attempt, exactly the copies that may still go are tried again, in their order; the weight of
/// all the others is done with, and each of them counts as changed.
pub proof fn what_may_still_go_is_tried_again(
    m: SettleModel,
    requests: Seq<EvictionReclaimRequest>,
    places: Seq<usize>,
    routes: Routes,
)
    requires
        m.retry.len() == 0,
        m.counters.route_changed + places.len() <= u64::MAX,
    ensures
        ({
            let r = settled(m, requests, places, routes);
            &&& r.retry == as_ints(places).filter(|p: int| may_still_go(routes, requests[p]))
            &&& r.completed_weight + weight_at(requests, r.retry) == m.completed_weight + weight_at(
                requests,
                as_ints(places),
            )
            &&& r.counters.route_changed + r.retry.len() == m.counters.route_changed + places.len()
            &&& r.counters.retry_restored == m.counters.retry_restored
        }),
    decreases places.len(),
{
    let keep = |p: int| may_still_go(routes, requests[p]);
    let all = as_ints(places);
    reveal(Seq::filter);
    if places.len() == 0 {
        assert(m.retry =~= all.filter(keep));
    } else {
        let less = places.drop_last();
        what_may_still_go_is_tried_again(m, requests, less, routes);
        assert(all.drop_last() =~= as_ints(less));
        let before = settled(m, requests, less, routes);
        let r = settled(m, requests, places, routes);
        if keep(all.last()) {
            assert(r.retry.drop_last() =~= before.retry);
        }
    }
}

/// A batch begins where the one before ended, is not empty, and asks for no more copies than slots are
/// needed; there is none only when enough slots are free or all candidates were looked at.
pub proof fn batches_follow_each_other(
    scan: ReserveScan,
    after: ReserveScan,
    r: Option<(usize, usize)>,
)
    requires
        scan.wf(),
        scan.batch_taken(after, r),
    ensures
        r is None <==> scan.reclaimed == scan.required_free_slots || scan.scanned
            == scan.candidates,
        r is None ==> after == scan,
        r matches Some((from, to)) ==> {
            &&& from == scan.scanned
            &&& from < to <= scan.candidates
            &&& to - from <= scan.required_free_slots - scan.reclaimed
            &&& to == scan.candidates || to - from == scan.required_free_slots - scan.reclaimed
            &&& after.scanned == to
        },
        after.reclaimed == scan.reclaimed,
        after.required_free_slots == scan.required_free_slots,
        after.candidates == scan.candidates,
{
}

/// A batch frees no more slots than it has candidates, and no others are counted.
pub proof fn freed_slots_are_counted(
    scan: ReserveScan,
    batch_size: usize,
    batch_reclaimed: u32,
    after: ReserveScan,
)
    requires
        scan.wf(),
        batch_size <= scan.required_free_slots - scan.reclaimed,
        scan.batch_noted(batch_size, batch_reclaimed, after),
    ensures
        batch_reclaimed <= batch_size ==> after.reclaimed == scan.reclaimed + batch_reclaimed,
        batch_reclaimed > batch_size ==> after.reclaimed == scan.reclaimed + batch_size,
        after.reclaimed <= after.required_free_slots,
        after.scanned == scan.scanned,
        after.required_free_slots == scan.required_free_slots,
        after.candidates == scan.candidates,
{
}

} // verus!
