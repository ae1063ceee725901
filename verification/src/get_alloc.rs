//! Finding memory for a get on a node: which segment is tried when, and how long.
use vstd::prelude::*;
use rand::seq::SliceRandom;

verus! {

/// How long a get waits for memory.
pub const GET_ALLOCATION_WAIT_TIMEOUT_MS: u64 = 5_000;

/// How long a get sleeps before it tries again.
pub const GET_ALLOCATION_RETRY_INTERVAL_MS: u64 = 2;

/// Puts the numbers in a random order with `SliceRandom::shuffle` of the thread's generator. Trusted:
/// the numbers stay the same. Their order depends on chance.
#[verifier::external_body]
fn shuffle(numbers: &mut Vec<usize>)
    ensures
        final(numbers)@.to_multiset() == old(numbers)@.to_multiset(),
{
    numbers.shuffle(&mut rand::thread_rng());
}

/// The order in which the segments of a node are tried: each once.
pub open spec fn is_order(order: Seq<usize>, count: nat) -> bool {
    &&& order.len() == count
    &&& order.no_duplicates()
    &&& forall|i: int| 0 <= i < order.len() ==> (#[trigger] order[i]) < count
}

/// A random order in which to try the segments of a node.
pub fn allocation_order(count: usize) -> (r: Vec<usize>)
    ensures
        is_order(r@, count as nat),
{
    let mut r: Vec<usize> = Vec::new();
    let mut i: usize = 0;
    while i < count
        invariant
            i <= count,
            r@.len() == i,
            forall|j: int| 0 <= j < i ==> #[trigger] r@[j] == j,
        decreases count - i,
    {
        r.push(i);
        i += 1;
    }
    let ghost sorted = r@;
    proof {
        sorted.lemma_multiset_has_no_duplicates();
    }
    shuffle(&mut r);
    proof {
        broadcast use vstd::seq_lib::group_to_multiset_ensures;

        assert(r@.to_multiset().len() == r@.len());
        assert(sorted.to_multiset().len() == sorted.len());
        r@.lemma_multiset_has_no_duplicates_conv();
        assert forall|i: int| 0 <= i < r@.len() implies (#[trigger] r@[i]) < count by {
            assert(r@.contains(r@[i]));
            assert(sorted.to_multiset().count(r@[i]) > 0);
            assert(sorted.contains(r@[i]));
        }
    }
    r
}

/// The memory of one segment.
pub struct SegmentUsage {
    pub device_id: String,
    pub total: u64,
    pub used: u64,
}

impl SegmentUsage {
    pub open spec fn spec_free(self) -> int {
        if self.total >= self.used {
            self.total - self.used
        } else {
            0
        }
    }

    pub fn free(&self) -> (r: u64)
        ensures
            r == self.spec_free(),
    {
        self.total.saturating_sub(self.used)
    }
}

/// The segment with the most room; of several, the last.
pub fn roomiest_segment(segments: &Vec<SegmentUsage>) -> (r: Option<usize>)
    ensures
        match r {
            None => segments@.len() == 0,
            Some(at) => {
                &&& at < segments@.len()
                &&& forall|i: int|
                    0 <= i < segments@.len() ==> (#[trigger] segments@[i]).spec_free()
                        <= segments@[at as int].spec_free()
                &&& forall|i: int|
                    at < i < segments@.len() ==> (#[trigger] segments@[i]).spec_free()
                        < segments@[at as int].spec_free()
            },
        },
{
    if segments.len() == 0 {
        return None;
    }
    let mut at: usize = 0;
    let mut i: usize = 1;
    while i < segments.len()
        invariant
            at < i <= segments@.len(),
            forall|j: int|
                0 <= j < i ==> (#[trigger] segments@[j]).spec_free()
                    <= segments@[at as int].spec_free(),
            forall|j: int|
                at < j < i ==> (#[trigger] segments@[j]).spec_free()
                    < segments@[at as int].spec_free(),
        decreases segments@.len() - i,
    {
        if segments[i].free() >= segments[at].free() {
            at = i;
        }
        i += 1;
    }
    Some(at)
}

/// Why a node gave no memory.
pub enum AllocateError {
    /// The node has no segments.
    OwnerNoSeg,
    /// The segments are full; told is of the one with the most room.
    NoSpace { node: String, segment: String, total_capacity: u64, free_capacity: u64 },
}

/// Why there is no memory, when all segments have been tried in vain.
pub fn no_memory(node: &String, segments: &Vec<SegmentUsage>) -> (r: AllocateError)
    ensures
        match r {
            AllocateError::OwnerNoSeg => segments@.len() == 0,
            AllocateError::NoSpace { node: n, segment, total_capacity, free_capacity } => {
                &&& n@ == node@
                &&& exists|at: int|
                    {
                        &&& 0 <= at < segments@.len()
                        &&& segment@ == (#[trigger] segments@[at]).device_id@
                        &&& total_capacity == segments@[at].total
                        &&& free_capacity == segments@[at].spec_free()
                        &&& forall|i: int|
                            0 <= i < segments@.len() ==> (#[trigger] segments@[i]).spec_free()
                                <= free_capacity
                        &&& forall|i: int|
                            at < i < segments@.len() ==> (#[trigger] segments@[i]).spec_free()
                                < free_capacity
                    }
            },
        },
{
    match roomiest_segment(segments) {
        None => AllocateError::OwnerNoSeg,
        Some(at) => {
            let segment = &segments[at];
            AllocateError::NoSpace {
                node: node.clone(),
                segment: segment.device_id.clone(),
                total_capacity: segment.total,
                free_capacity: segment.free(),
            }
        },
    }
}

/// What is to be done next for memory.
#[derive(Clone, Copy, Debug, PartialEq, Eq, Structural)]
pub enum WaitAction {
    /// Try the segment at this position of the order.
    Try { position: usize },
    /// Let memory that is on its way out go, then go on.
    AdvanceReclamation,
    /// Sleep, then go on.
    Sleep,
    /// The segment tried last gave memory.
    Allocated,
    /// Give up.
    TimedOut,
}

/// Where the wait stands.
#[derive(Clone, Copy, Debug, PartialEq, Eq, Structural)]
pub enum WaitPhase {
    /// The segments are tried, and there is memory to be waited for afterwards.
    First { position: usize },
    /// Memory on its way out is let go.
    Reclaiming,
    /// The segments are tried once more before sleeping.
    Second { position: usize },
    Sleeping,
    Over,
}

/// A bounded wait for memory. The segments are tried in order; then, while there is time, memory on
/// its way out is let go, the segments are tried once more, and the wait sleeps.
pub struct AllocationWait {
    pub segments: usize,
    pub attempts: usize,
    pub phase: WaitPhase,
}

/// A segment was tried.
pub open spec fn try_answered(
    a: AllocationWait,
    success: bool,
    elapsed_ms: u64,
    timeout_ms: u64,
    r: WaitAction,
    b: AllocationWait,
) -> bool {
    &&& b.segments == a.segments
    &&& b.attempts == a.attempts + 1
    &&& if success {
        r == WaitAction::Allocated && b.phase == WaitPhase::Over
    } else {
        match a.phase {
            WaitPhase::First { position } => if position + 1 < a.segments {
                &&& r == (WaitAction::Try { position: (position + 1) as usize })
                &&& b.phase == (WaitPhase::First { position: (position + 1) as usize })
            } else if elapsed_ms >= timeout_ms {
                r == WaitAction::TimedOut && b.phase == WaitPhase::Over
            } else {
                r == WaitAction::AdvanceReclamation && b.phase == WaitPhase::Reclaiming
            },
            WaitPhase::Second { position } => if position + 1 < a.segments {
                &&& r == (WaitAction::Try { position: (position + 1) as usize })
                &&& b.phase == (WaitPhase::Second { position: (position + 1) as usize })
            } else {
                r == WaitAction::Sleep && b.phase == WaitPhase::Sleeping
            },
            _ => true,
        }
    }
}

/// The wait goes on with the first segment.
pub open spec fn wait_resumed(a: AllocationWait, r: WaitAction, b: AllocationWait) -> bool {
    &&& b.segments == a.segments
    &&& b.attempts == a.attempts
    &&& r == (WaitAction::Try { position: 0 })
    &&& b.phase == if a.phase is Reclaiming {
        WaitPhase::Second { position: 0 }
    } else {
        WaitPhase::First { position: 0 }
    }
}

/// Segments are tried one after another, in vain, from the first one on: `waits[0]` is the beginning of a
/// round, and the `i`-th try comes after `elapsed[i]`.
pub open spec fn fruitless_round(
    waits: Seq<AllocationWait>,
    elapsed: Seq<u64>,
    timeout_ms: u64,
    actions: Seq<WaitAction>,
) -> bool {
    &&& waits.len() == actions.len() + 1
    &&& elapsed.len() == actions.len()
    &&& actions.len() == waits[0].segments
    &&& waits[0].segments > 0
    &&& waits[0].phase == (WaitPhase::First { position: 0 }) || waits[0].phase == (
    WaitPhase::Second { position: 0 })
    &&& forall|i: int|
        0 <= i < actions.len() ==> try_answered(
            #[trigger] waits[i],
            false,
            elapsed[i],
            timeout_ms,
            actions[i],
            waits[i + 1],
        )
}

proof fn lemma_round(
    waits: Seq<AllocationWait>,
    elapsed: Seq<u64>,
    timeout_ms: u64,
    actions: Seq<WaitAction>,
    i: int,
)
    requires
        fruitless_round(waits, elapsed, timeout_ms, actions),
        0 <= i < actions.len(),
    ensures
        waits[i].segments == waits[0].segments,
        waits[0].phase is First ==> waits[i].phase == (WaitPhase::First { position: i as usize }),
        waits[0].phase is Second ==> waits[i].phase == (WaitPhase::Second { position: i as usize }),
    decreases i,
{
    if i > 0 {
        lemma_round(waits, elapsed, timeout_ms, actions, i - 1);
        assert(try_answered(
            waits[i - 1],
            false,
            elapsed[i - 1],
            timeout_ms,
            actions[i - 1],
            waits[i - 1 + 1],
        ));
    }
}

/// A round tries every segment, one after another. A wait gives up only after a whole round in vain, when
/// its time is over; before that, memory on its way out is let go, all segments are tried once more, and
/// the wait sleeps.
pub proof fn every_segment_is_tried_before_giving_up(
    waits: Seq<AllocationWait>,
    elapsed: Seq<u64>,
    timeout_ms: u64,
    actions: Seq<WaitAction>,
)
    requires
        fruitless_round(waits, elapsed, timeout_ms, actions),
    ensures
        forall|i: int|
            0 <= i < actions.len() - 1 ==> #[trigger] actions[i] == (WaitAction::Try {
                position: (i + 1) as usize,
            }),
        waits[0].phase is First ==> actions.last() == if elapsed.last() >= timeout_ms {
            WaitAction::TimedOut
        } else {
            WaitAction::AdvanceReclamation
        },
        waits[0].phase is Second ==> actions.last() == WaitAction::Sleep,
{
    let n = actions.len() as int;
    assert forall|i: int| 0 <= i < n - 1 implies #[trigger] actions[i] == (WaitAction::Try {
        position: (i + 1) as usize,
    }) by {
        lemma_round(waits, elapsed, timeout_ms, actions, i);
        assert(try_answered(waits[i], false, elapsed[i], timeout_ms, actions[i], waits[i + 1]));
    }
    lemma_round(waits, elapsed, timeout_ms, actions, n - 1);
    assert(try_answered(
        waits[n - 1],
        false,
        elapsed[n - 1],
        timeout_ms,
        actions[n - 1],
        waits[n - 1 + 1],
    ));
}

/// Memory that a segment gave ends the wait, and nothing else does but the end of its time.
pub proof fn memory_ends_the_wait(
    a: AllocationWait,
    success: bool,
    elapsed_ms: u64,
    timeout_ms: u64,
    r: WaitAction,
    b: AllocationWait,
)
    requires
        a.phase is First || a.phase is Second,
        try_answered(a, success, elapsed_ms, timeout_ms, r, b),
    ensures
        success <==> r == WaitAction::Allocated,
        r == WaitAction::TimedOut ==> elapsed_ms >= timeout_ms && a.phase is First,
        b.phase == WaitPhase::Over <==> r == WaitAction::Allocated || r == WaitAction::TimedOut,
{
}

/// After memory was let go all segments are tried once more, and after sleeping a new round begins.
pub proof fn a_wait_goes_on_with_the_first_segment(a: AllocationWait, r: WaitAction, b: AllocationWait)
    requires
        a.phase is Reclaiming || a.phase is Sleeping,
        wait_resumed(a, r, b),
    ensures
        r == (WaitAction::Try { position: 0 }),
        a.phase is Reclaiming <==> b.phase is Second,
        a.phase is Sleeping <==> b.phase is First,
        b.segments == a.segments,
{
}

impl AllocationWait {
    pub open spec fn wf(&self) -> bool {
        &&& self.segments > 0
        &&& match self.phase {
            WaitPhase::First { position } => position < self.segments,
            WaitPhase::Second { position } => position < self.segments,
            _ => true,
        }
    }

    /// The wait begins with the first segment.
    pub fn begin(segments: usize) -> (r: (Self, WaitAction))
        requires
            segments > 0,
        ensures
            r.0.wf(),
            r.0 == (AllocationWait {
                segments,
                attempts: 0,
                phase: WaitPhase::First { position: 0 },
            }),
            r.1 == (WaitAction::Try { position: 0 }),
    {
        (
            AllocationWait { segments, attempts: 0, phase: WaitPhase::First { position: 0 } },
            WaitAction::Try { position: 0 },
        )
    }

    /// A segment was tried; `elapsed_ms` has passed since the wait began.
    pub fn tried(&mut self, success: bool, elapsed_ms: u64, timeout_ms: u64) -> (r: WaitAction)
        requires
            old(self).wf(),
            old(self).attempts < usize::MAX,
            old(self).phase is First || old(self).phase is Second,
        ensures
            final(self).wf(),
            try_answered(*old(self), success, elapsed_ms, timeout_ms, r, *final(self)),
    {
        self.attempts = self.attempts + 1;
        if success {
            self.phase = WaitPhase::Over;
            return WaitAction::Allocated;
        }
        match self.phase {
            WaitPhase::First { position } => {
                if position + 1 < self.segments {
                    self.phase = WaitPhase::First { position: position + 1 };
                    WaitAction::Try { position: position + 1 }
                } else if elapsed_ms >= timeout_ms {
                    self.phase = WaitPhase::Over;
                    WaitAction::TimedOut
                } else {
                    self.phase = WaitPhase::Reclaiming;
                    WaitAction::AdvanceReclamation
                }
            },
            WaitPhase::Second { position } => {
                if position + 1 < self.segments {
                    self.phase = WaitPhase::Second { position: position + 1 };
                    WaitAction::Try { position: position + 1 }
                } else {
                    self.phase = WaitPhase::Sleeping;
                    WaitAction::Sleep
                }
            },
            _ => WaitAction::TimedOut,
        }
    }

    /// The wait goes on after memory was let go, or after sleeping: the segments are tried again.
    pub fn resumed(&mut self) -> (r: WaitAction)
        requires
            old(self).wf(),
            old(self).phase is Reclaiming || old(self).phase is Sleeping,
        ensures
            final(self).wf(),
            wait_resumed(*old(self), r, *final(self)),
    {
        self.phase = match self.phase {
            WaitPhase::Reclaiming => WaitPhase::Second { position: 0 },
            _ => WaitPhase::First { position: 0 },
        };
        WaitAction::Try { position: 0 }
    }
}

} // verus!
