//! The bookkeeping of a worker that drives one submission queue: which queue it serves next, which
//! token a submission carries, and what an error from the kernel means.
use vstd::arithmetic::div_mod::*;
use vstd::prelude::*;

use crate::assoc::{lemma_map_has_row, lemma_row_in_map, rows_map, rows_unique, AssocMap};

verus! {

/// The kinds of transfer.
#[derive(Clone, Copy, Debug, PartialEq, Eq, Structural)]
pub enum IoType {
    Read,
    Write,
    Readv,
    Writev,
}

impl IoType {
    /// The transfer reads from the device.
    pub open spec fn spec_is_read(self) -> bool {
        self == IoType::Read || self == IoType::Readv
    }

    pub fn is_read(self) -> (r: bool)
        ensures
            r == self.spec_is_read(),
    {
        matches!(self, IoType::Read | IoType::Readv)
    }
}

/// How buffers are handed to the kernel.
#[derive(Clone, Copy, Debug, PartialEq, Eq, Structural)]
pub enum KvSsdUringMode {
    SingleBuffer,
    Iovec,
}

/// The kind of transfer that a mode uses.
pub fn io_type_for(mode: KvSsdUringMode, read: bool) -> (r: IoType)
    ensures
        r == io_type_of(mode, read),
{
    match mode {
        KvSsdUringMode::SingleBuffer => if read {
            IoType::Read
        } else {
            IoType::Write
        },
        KvSsdUringMode::Iovec => if read {
            IoType::Readv
        } else {
            IoType::Writev
        },
    }
}

/// What to do after waiting for the kernel has failed.
#[derive(Clone, Copy, Debug, PartialEq, Eq, Structural)]
pub enum SubmitWaitAction {
    Retry,
    DrainCompletions,
    FailWorker,
}

/// A failed wait: whether a signal interrupted it, and the number of the system's error.
#[derive(Clone, Copy, Debug, PartialEq, Eq, Structural)]
pub struct SubmitFault {
    pub interrupted: bool,
    pub os_error: Option<i32>,
}

/// The number by which `libc` names the error "device or resource busy". It differs between
/// systems, so nothing is claimed of it.
#[verifier::external_body]
fn ebusy() -> (r: i32) {
    libc::EBUSY
}

/// Tells what to do after a failed wait, where `busy` is the system's number for a busy device.
pub fn wait_action(fault: SubmitFault, busy: i32) -> (r: SubmitWaitAction)
    ensures
        r == if fault.interrupted {
            SubmitWaitAction::Retry
        } else if fault.os_error == Some(busy) {
            SubmitWaitAction::DrainCompletions
        } else {
            SubmitWaitAction::FailWorker
        },
{
    if fault.interrupted {
        SubmitWaitAction::Retry
    } else {
        match fault.os_error {
            Some(code) => if code == busy {
                SubmitWaitAction::DrainCompletions
            } else {
                SubmitWaitAction::FailWorker
            },
            None => SubmitWaitAction::FailWorker,
        }
    }
}

/// Tells what to do after a failed wait. A wait that was interrupted is tried again, a busy device
/// is given time by draining completions, and any other error ends the worker.
pub fn submit_wait_error_action(fault: SubmitFault) -> (r: SubmitWaitAction)
    ensures
        fault.interrupted <==> r == SubmitWaitAction::Retry,
        !fault.interrupted && fault.os_error is None ==> r == SubmitWaitAction::FailWorker,
        exists|busy: i32|
            r == if fault.interrupted {
                SubmitWaitAction::Retry
            } else if fault.os_error == Some(busy) {
                SubmitWaitAction::DrainCompletions
            } else {
                SubmitWaitAction::FailWorker
            },
{
    let busy: i32 = ebusy();
    wait_action(fault, busy)
}

/// The number of submission queues is never zero; a shard always uses the same one.
pub fn queue_of_shard(shard_id: usize, queues: usize) -> (r: usize)
    requires
        queues > 0,
    ensures
        r == shard_id as int % queues as int,
        r < queues,
{
    shard_id % queues
}

/// The kind of transfer for a read or a write.
pub open spec fn io_type_of(mode: KvSsdUringMode, read: bool) -> IoType {
    match mode {
        KvSsdUringMode::SingleBuffer => if read {
            IoType::Read
        } else {
            IoType::Write
        },
        KvSsdUringMode::Iovec => if read {
            IoType::Readv
        } else {
            IoType::Writev
        },
    }
}

/// Reads come before writes, given how many of each are under way.
pub open spec fn reads_first(reads: int, writes: int, read_weight: int) -> bool {
    reads <= writes * read_weight
}

/// Reads are read and writes are written, however their buffers are handed over, and different ways to hand
/// them over lead to different kinds of transfers.
pub proof fn reads_are_read_and_writes_written(mode: KvSsdUringMode, other: KvSsdUringMode, read: bool)
    ensures
        io_type_of(mode, true) == IoType::Read || io_type_of(mode, true) == IoType::Readv,
        io_type_of(mode, false) == IoType::Write || io_type_of(mode, false) == IoType::Writev,
        io_type_of(mode, read).spec_is_read() == read,
        mode != other ==> io_type_of(mode, read) != io_type_of(other, read),
        mode == KvSsdUringMode::SingleBuffer <==> io_type_of(mode, true) == IoType::Read,
        mode == KvSsdUringMode::SingleBuffer <==> io_type_of(mode, false) == IoType::Write,
{
}

/// A read comes first when none is under way. While writes are under way, so many reads come first for each
/// of them and no more; with none under way, one read is enough for a write to come first.
pub proof fn writes_get_their_turn(reads: int, writes: int, read_weight: int)
    requires
        0 <= reads,
        0 <= writes,
        0 <= read_weight,
    ensures
        reads_first(0, writes, read_weight),
        reads > 0 && writes == 0 ==> !reads_first(reads, writes, read_weight),
        reads > 0 && read_weight == 0 ==> !reads_first(reads, writes, read_weight),
        writes == 1 ==> (reads_first(reads, writes, read_weight) <==> reads <= read_weight),
        reads_first(reads, writes, read_weight) ==> reads_first(reads, writes + 1, read_weight),
        reads_first(reads, writes, read_weight) <==> reads_first(
            reads + read_weight,
            writes + 1,
            read_weight,
        ),
{
    assert((writes + 1) * read_weight == writes * read_weight + read_weight) by (nonlinear_arith);
    assert(writes * read_weight >= 0) by (nonlinear_arith)
        requires
            0 <= writes,
            0 <= read_weight,
    ;
    if writes == 0 || read_weight == 0 {
        assert(writes * read_weight == 0) by (nonlinear_arith)
            requires
                writes == 0 || read_weight == 0,
        ;
    }
}

/// Reads come first while there are no more of them than `read_weight` for each write.
pub fn prefer_read(read_inflight: usize, write_inflight: usize, read_weight: usize) -> (r: bool)
    ensures
        r == reads_first(read_inflight as int, write_inflight as int, read_weight as int),
{
    if write_inflight == 0 || read_weight == 0 {
        proof {
            assert(write_inflight * read_weight == 0) by (nonlinear_arith)
                requires
                    write_inflight == 0 || read_weight == 0,
            ;
        }
        return read_inflight == 0;
    }
    match write_inflight.checked_mul(read_weight) {
        Some(limit) => read_inflight <= limit,
        None => true,
    }
}

/// The number of tokens: every 64-bit number but zero.
pub open spec fn token_count() -> int {
    u64::MAX as int
}

/// The `i`-th token that is tried when the next one would be `next`; zero is never tried.
pub open spec fn candidate(next: u64, i: int) -> int {
    let first: int = if next == 0 {
        1
    } else {
        next as int
    };
    (first - 1 + i) % token_count() + 1
}

/// The successor of a token in the order in which tokens are tried.
pub open spec fn after_token(token: int) -> u64 {
    if token == u64::MAX {
        0
    } else {
        (token + 1) as u64
    }
}

proof fn lemma_candidate(next: u64, i: int)
    requires
        0 <= i,
    ensures
        1 <= candidate(next, i) <= u64::MAX,
        candidate(after_token(candidate(next, i)), 0) == candidate(next, i + 1),
        candidate(next, 0) == if next == 0 {
            1
        } else {
            next as int
        },
{
    let first: int = if next == 0 {
        1
    } else {
        next as int
    };
    let n = token_count();
    lemma_mod_bound(first - 1 + i, n);
    lemma_mod_bound(first - 1 + i + 1, n);
    lemma_small_mod((first - 1) as nat, n as nat);
    let t = candidate(next, i);
    lemma_add_mod_noop(first - 1 + i, 1, n);
    lemma_small_mod(1, n as nat);
    if t == u64::MAX {
        lemma_mod_self_0(n);
        lemma_small_mod(0, n as nat);
    } else {
        lemma_small_mod(t as nat, n as nat);
    }
}

proof fn lemma_candidates_differ(next: u64, i: int, j: int)
    requires
        0 <= i < j < token_count(),
    ensures
        candidate(next, i) != candidate(next, j),
{
    let first: int = if next == 0 {
        1
    } else {
        next as int
    };
    let n = token_count();
    let x = first - 1 + i;
    let y = first - 1 + j;
    if x % n == y % n {
        lemma_fundamental_div_mod(x, n);
        lemma_fundamental_div_mod(y, n);
        let d = y / n - x / n;
        assert(y - x == n * d) by (nonlinear_arith)
            requires
                x == n * (x / n) + x % n,
                y == n * (y / n) + y % n,
                x % n == y % n,
                d == y / n - x / n,
        ;
        if d >= 1 {
            assert(n * d >= n) by (nonlinear_arith)
                requires
                    d >= 1,
                    n > 0,
            ;
        } else {
            assert(n * d <= 0) by (nonlinear_arith)
                requires
                    d <= 0,
                    n > 0,
            ;
        }
    }
}

/// The number of submissions of one direction.
pub open spec fn count_io(rows: Seq<(u64, IoType)>, read: bool) -> int
    decreases rows.len(),
{
    if rows.len() == 0 {
        0
    } else {
        count_io(rows.drop_last(), read) + if rows.last().1.spec_is_read() == read {
            1int
        } else {
            0int
        }
    }
}

/// Some row carries the token.
spec fn in_use(rows: Seq<(u64, IoType)>, token: int) -> bool {
    exists|i: int| 0 <= i < rows.len() && (#[trigger] rows[i]).0 == token
}

/// Distinct tokens that are all in use are no more than the rows.
proof fn lemma_tokens_in_use(rows: Seq<(u64, IoType)>, next: u64, n: int)
    requires
        0 <= n <= token_count(),
        forall|t: int| 0 <= t < n ==> in_use(rows, #[trigger] candidate(next, t)),
    ensures
        n <= rows.len(),
    decreases n,
{
    if n > 0 {
        let last = candidate(next, n - 1);
        assert(in_use(rows, last));
        let at = choose|i: int| 0 <= i < rows.len() && (#[trigger] rows[i]).0 == last;
        let rest = rows.remove(at);
        assert forall|t: int| 0 <= t < n - 1 implies in_use(
            rest,
            #[trigger] candidate(next, t),
        ) by {
            lemma_candidates_differ(next, t, n - 1);
            assert(in_use(rows, candidate(next, t)));
            let i = choose|i: int|
                0 <= i < rows.len() && (#[trigger] rows[i]).0 == candidate(next, t);
            let i1 = if i < at {
                i
            } else {
                i - 1
            };
            assert(rest[i1].0 == candidate(next, t));
        }
        lemma_tokens_in_use(rest, next, n - 1);
    }
}

proof fn lemma_count_push(rows: Seq<(u64, IoType)>, row: (u64, IoType), read: bool)
    ensures
        count_io(rows.push(row), read) == count_io(rows, read) + if row.1.spec_is_read() == read {
            1int
        } else {
            0int
        },
{
    assert(rows.push(row).drop_last() =~= rows);
}

proof fn lemma_count_remove(rows: Seq<(u64, IoType)>, at: int, read: bool)
    requires
        0 <= at < rows.len(),
    ensures
        count_io(rows.remove(at), read) == count_io(rows, read)
            - if rows[at].1.spec_is_read() == read {
            1int
        } else {
            0int
        },
    decreases rows.len(),
{
    if at == rows.len() - 1 {
        assert(rows.remove(at) =~= rows.drop_last());
    } else {
        lemma_count_remove(rows.drop_last(), at, read);
        assert(rows.remove(at).drop_last() =~= rows.drop_last().remove(at));
        assert(rows.remove(at).last() == rows.last());
    }
}

proof fn lemma_count_total(rows: Seq<(u64, IoType)>)
    ensures
        count_io(rows, true) >= 0,
        count_io(rows, false) >= 0,
        count_io(rows, true) + count_io(rows, false) == rows.len(),
    decreases rows.len(),
{
    if rows.len() > 0 {
        lemma_count_total(rows.drop_last());
    }
}

/// What a worker does next.
#[derive(Clone, Copy, Debug, PartialEq, Eq, Structural)]
pub enum WorkerAction {
    /// Look for a command without waiting.
    Poll,
    /// Wait for a command from the queues that are still open.
    WaitForCommand { read: bool, write: bool },
    /// Submit and wait for a completion.
    SubmitAndWait,
    /// Nothing is left to do.
    Exit,
}

/// What polling a queue gave.
#[derive(Clone, Copy, Debug, PartialEq, Eq, Structural)]
pub enum PollResult {
    Command,
    Empty,
    Disconnected,
}

/// The state of a worker.
pub struct UringWorker {
    submitted: AssocMap<u64, IoType>,
    next_token: u64,
    read_inflight: usize,
    write_inflight: usize,
    read_closed: bool,
    write_closed: bool,
    io_depth: usize,
    read_weight: usize,
}

/// The state of a worker, as mathematical values.
#[verifier::ext_equal]
pub struct WorkerModel {
    pub submitted: Map<u64, IoType>,
    pub next_token: u64,
    pub reads: int,
    pub writes: int,
    pub read_closed: bool,
    pub write_closed: bool,
    pub io_depth: int,
    pub read_weight: int,
}

impl WorkerModel {
    /// A queue was polled.
    pub open spec fn queue_polled(
        self,
        read: bool,
        result: PollResult,
        got: bool,
        after: WorkerModel,
    ) -> bool {
        &&& got == (result == PollResult::Command)
        &&& after == (WorkerModel {
            read_closed: self.read_closed || read && result == PollResult::Disconnected,
            write_closed: self.write_closed || !read && result == PollResult::Disconnected,
            ..self
        })
    }

    /// The worker after a transfer was handed to the kernel.
    pub open spec fn with_submission(self, token: u64, io_type: IoType) -> WorkerModel {
        WorkerModel {
            submitted: self.submitted.insert(token, io_type),
            reads: self.reads + if io_type.spec_is_read() {
                1int
            } else {
                0int
            },
            writes: self.writes + if io_type.spec_is_read() {
                0int
            } else {
                1int
            },
            ..self
        }
    }

    /// The kernel has completed a transfer.
    pub open spec fn completion_noted(self, token: u64, r: Option<IoType>, after: WorkerModel) -> bool {
        &&& r == if token != 0 && self.submitted.contains_key(token) {
            Some(self.submitted[token])
        } else {
            None
        }
        &&& r is None ==> after == self
        &&& r matches Some(io_type) ==> after == (WorkerModel {
            submitted: self.submitted.remove(token),
            reads: self.reads - if io_type.spec_is_read() {
                1int
            } else {
                0int
            },
            writes: self.writes - if io_type.spec_is_read() {
                0int
            } else {
                1int
            },
            ..self
        })
    }
}

/// A queue counts as closed only once it was found disconnected, and stays closed; polling one queue says
/// nothing of the other.
pub proof fn a_queue_closes_when_it_is_disconnected(
    m: WorkerModel,
    read: bool,
    result: PollResult,
    got: bool,
    after: WorkerModel,
)
    requires
        m.queue_polled(read, result, got, after),
    ensures
        got <==> result == PollResult::Command,
        result != PollResult::Disconnected ==> after == m,
        result == PollResult::Disconnected && read ==> after.read_closed && after.write_closed
            == m.write_closed,
        result == PollResult::Disconnected && !read ==> after.write_closed && after.read_closed
            == m.read_closed,
        m.read_closed ==> after.read_closed,
        m.write_closed ==> after.write_closed,
        after.submitted == m.submitted && after.reads == m.reads && after.writes == m.writes,
{
}

/// A completion ends the transfer that its token was handed out for, once, and leaves the others under way;
/// one whose token is not in use ends none. Transfers under way are counted as what they are.
pub proof fn a_completion_ends_its_transfer(
    m: WorkerModel,
    token: u64,
    io_type: IoType,
    r: Option<IoType>,
    after: WorkerModel,
    again: Option<IoType>,
    later: WorkerModel,
    other: u64,
)
    requires
        token != 0,
        !m.submitted.contains_key(token),
        m.with_submission(token, io_type).completion_noted(token, r, after),
        after.completion_noted(token, again, later),
    ensures
        ({
            let under_way = m.with_submission(token, io_type);
            &&& under_way.reads + under_way.writes == m.reads + m.writes + 1
            &&& under_way.reads == m.reads + 1 <==> io_type == IoType::Read || io_type
                == IoType::Readv
            &&& under_way.submitted.contains_key(token) && under_way.submitted[token] == io_type
        }),
        r == Some(io_type),
        after.submitted == m.submitted,
        after.reads == m.reads && after.writes == m.writes,
        again is None && later == after,
        other != token ==> (m.with_submission(token, io_type).submitted.contains_key(other)
            <==> m.submitted.contains_key(other)),
{
    assert(m.submitted.insert(token, io_type).remove(token) =~= m.submitted);
}

impl View for UringWorker {
    type V = WorkerModel;

    closed spec fn view(&self) -> WorkerModel {
        WorkerModel {
            submitted: self.submitted@,
            next_token: self.next_token,
            reads: self.read_inflight as int,
            writes: self.write_inflight as int,
            read_closed: self.read_closed,
            write_closed: self.write_closed,
            io_depth: self.io_depth as int,
            read_weight: self.read_weight as int,
        }
    }
}

/// What a worker does next; `queues_empty` tells that polling found nothing since the last step.
pub open spec fn action_of(m: WorkerModel, queues_empty: bool) -> WorkerAction {
    if !queues_empty && m.reads + m.writes < m.io_depth && !(m.read_closed && m.write_closed) {
        WorkerAction::Poll
    } else if m.reads + m.writes > 0 {
        WorkerAction::SubmitAndWait
    } else if m.read_closed && m.write_closed {
        WorkerAction::Exit
    } else {
        WorkerAction::WaitForCommand { read: !m.read_closed, write: !m.write_closed }
    }
}

/// The queue that is polled in the first or second attempt, unless it is closed.
pub open spec fn poll_of(m: WorkerModel, second: bool) -> Option<bool> {
    let preferred = m.reads <= m.writes * m.read_weight;
    let target = preferred != second;
    if target && m.read_closed || !target && m.write_closed {
        None
    } else {
        Some(target)
    }
}

/// A worker takes new commands only while it has room for them, ends only when nothing is under way and
/// nothing more can come, and waits for a command only when nothing is under way.
pub proof fn a_worker_ends_only_when_all_is_done(m: WorkerModel, queues_empty: bool)
    requires
        0 <= m.reads,
        0 <= m.writes,
    ensures
        ({
            let r = action_of(m, queues_empty);
            &&& r == WorkerAction::Exit ==> m.reads == 0 && m.writes == 0 && m.read_closed
                && m.write_closed
            &&& r == WorkerAction::Poll ==> m.reads + m.writes < m.io_depth && !queues_empty
            &&& r == WorkerAction::SubmitAndWait ==> m.reads + m.writes > 0
            &&& r matches WorkerAction::WaitForCommand { read, write } ==> {
                &&& m.reads + m.writes == 0
                &&& read || write
                &&& read <==> !m.read_closed
                &&& write <==> !m.write_closed
            }
            &&& m.reads + m.writes > 0 && (queues_empty || m.reads + m.writes >= m.io_depth)
                ==> r == WorkerAction::SubmitAndWait
            &&& m.reads + m.writes == 0 && m.read_closed && m.write_closed ==> r
                == WorkerAction::Exit
        }),
{
}

/// Both queues get their turn: of the two attempts one is for each, as far as it is open. Reads come
/// first while none is under way, and no longer once there are more than `read_weight` for each write.
pub proof fn both_queues_are_polled(m: WorkerModel)
    requires
        0 <= m.reads,
        0 <= m.writes,
        0 <= m.read_weight,
    ensures
        !m.read_closed ==> poll_of(m, false) == Some(true) || poll_of(m, true) == Some(true),
        !m.write_closed ==> poll_of(m, false) == Some(false) || poll_of(m, true) == Some(false),
        m.read_closed ==> poll_of(m, false) != Some(true) && poll_of(m, true) != Some(true),
        m.write_closed ==> poll_of(m, false) != Some(false) && poll_of(m, true) != Some(false),
        m.reads == 0 && !m.read_closed ==> poll_of(m, false) == Some(true),
        m.reads > m.writes * m.read_weight && !m.write_closed ==> poll_of(m, false) == Some(false),
{
    assert(m.writes * m.read_weight >= 0) by (nonlinear_arith)
        requires
            0 <= m.writes,
            0 <= m.read_weight,
    ;
}

impl UringWorker {
    /// The counters tell how many transfers are under way in each direction.
    pub closed spec fn wf(&self) -> bool {
        &&& self.submitted.wf()
        &&& self.read_inflight == count_io(self.submitted.rows(), true)
        &&& self.write_inflight == count_io(self.submitted.rows(), false)
    }

    pub fn new(io_depth: usize, read_weight: usize) -> (r: Self)
        ensures
            r.wf(),
            r@ == (WorkerModel {
                submitted: Map::empty(),
                next_token: 1,
                reads: 0,
                writes: 0,
                read_closed: false,
                write_closed: false,
                io_depth: io_depth as int,
                read_weight: read_weight as int,
            }),
    {
        UringWorker {
            submitted: AssocMap::new(),
            next_token: 1,
            read_inflight: 0,
            write_inflight: 0,
            read_closed: false,
            write_closed: false,
            io_depth,
            read_weight,
        }
    }

    /// Decides the next step; `queues_empty` tells that polling found nothing since the last one.
    pub fn next_action(&self, queues_empty: bool) -> (r: WorkerAction)
        requires
            self.wf(),
            self@.reads + self@.writes <= usize::MAX,
        ensures
            r == action_of(self@, queues_empty),
            r == WorkerAction::Exit ==> self@.submitted == Map::<u64, IoType>::empty(),
    {
        let inflight: usize = self.read_inflight + self.write_inflight;
        if !queues_empty && inflight < self.io_depth && !(self.read_closed && self.write_closed) {
            return WorkerAction::Poll;
        }
        if self.read_closed && self.write_closed && inflight == 0 {
            proof {
                lemma_count_total(self.submitted.rows());
                self.submitted.lemma_rows();
                assert(self.submitted@ =~= Map::<u64, IoType>::empty());
            }
            return WorkerAction::Exit;
        }
        if inflight == 0 {
            return WorkerAction::WaitForCommand {
                read: !self.read_closed,
                write: !self.write_closed,
            };
        }
        WorkerAction::SubmitAndWait
    }

    /// The queue to poll in the first or second attempt: `Some(true)` for reads, `None` when that
    /// queue is closed.
    pub fn poll_target(&self, second: bool) -> (r: Option<bool>)
        requires
            self.wf(),
        ensures
            r == poll_of(self@, second),
    {
        let preferred = prefer_read(self.read_inflight, self.write_inflight, self.read_weight);
        let target = preferred != second;
        if (target && self.read_closed) || (!target && self.write_closed) {
            None
        } else {
            Some(target)
        }
    }

    /// Takes note of what polling a queue gave: a disconnected queue is not polled again.
    pub fn polled(&mut self, read: bool, result: PollResult) -> (got: bool)
        requires
            old(self).wf(),
        ensures
            final(self).wf(),
            old(self)@.queue_polled(read, result, got, final(self)@),
    {
        match result {
            PollResult::Command => true,
            PollResult::Empty => false,
            PollResult::Disconnected => {
                if read {
                    self.read_closed = true;
                } else {
                    self.write_closed = true;
                }
                false
            },
        }
    }

    /// Picks the token of the next submission: the first in turn that is not zero and not in use.
    pub fn next_submission_token(&mut self) -> (token: u64)
        requires
            old(self).wf(),
            old(self)@.reads + old(self)@.writes < u64::MAX,
        ensures
            final(self).wf(),
            token != 0,
            !old(self)@.submitted.contains_key(token),
            exists|i: int|
                {
                    &&& 0 <= i
                    &&& token == #[trigger] candidate(old(self)@.next_token, i)
                    &&& forall|t: int|
                        0 <= t < i ==> old(self)@.submitted.contains_key(
                            #[trigger] candidate(old(self)@.next_token, t) as u64,
                        )
                },
            final(self)@ == (WorkerModel { next_token: after_token(token as int), ..old(self)@ }),
    {
        let ghost start = self.next_token;
        let ghost rows = self.submitted.rows();
        let ghost mut tried: int = 0;
        proof {
            lemma_count_total(rows);
            self.submitted.lemma_rows();
        }
        loop
            invariant
                self.wf(),
                self.submitted == old(self).submitted,
                old(self)@.submitted == self.submitted@,
                self@ == (WorkerModel { next_token: self.next_token, ..old(self)@ }),
                start == old(self)@.next_token,
                rows == self.submitted.rows(),
                rows_map(rows) == self.submitted@,
                rows_unique(rows),
                rows.len() < u64::MAX,
                0 <= tried <= rows.len(),
                candidate(self.next_token, 0) == candidate(start, tried),
                forall|t: int|
                    0 <= t < tried ==> self.submitted@.contains_key(
                        #[trigger] candidate(start, t) as u64,
                    ),
            decreases rows.len() - tried,
        {
            proof {
                lemma_candidate(self.next_token, 0);
                lemma_candidate(start, tried);
            }
            if self.next_token == 0 {
                self.next_token = 1;
            }
            let token: u64 = self.next_token;
            assert(token == candidate(start, tried));
            self.next_token = token.wrapping_add(1);
            assert(self.next_token == after_token(token as int));
            if !self.submitted.contains_key(&token) {
                return token;
            }
            proof {
                tried = tried + 1;
                assert forall|t: int| 0 <= t < tried implies in_use(
                    rows,
                    #[trigger] candidate(start, t),
                ) by {
                    lemma_candidate(start, t);
                    let i = lemma_map_has_row(rows, candidate(start, t) as u64);
                    assert(rows[i].0 == candidate(start, t));
                }
                lemma_tokens_in_use(rows, start, tried);
            }
        }
    }

    /// Takes note of a transfer that was handed to the kernel.
    pub fn record_submission(&mut self, token: u64, io_type: IoType)
        requires
            old(self).wf(),
            !old(self)@.submitted.contains_key(token),
            old(self)@.reads < usize::MAX,
            old(self)@.writes < usize::MAX,
        ensures
            final(self).wf(),
            final(self)@ == old(self)@.with_submission(token, io_type),
    {
        proof {
            lemma_count_push(self.submitted.rows(), (token, io_type), true);
            lemma_count_push(self.submitted.rows(), (token, io_type), false);
        }
        self.submitted.insert(token, io_type);
        if io_type.is_read() {
            self.read_inflight += 1;
        } else {
            self.write_inflight += 1;
        }
    }

    /// Takes note of a completion and returns the kind of transfer it ends; a token that is not in
    /// use ends none.
    pub fn complete(&mut self, token: u64) -> (r: Option<IoType>)
        requires
            old(self).wf(),
        ensures
            final(self).wf(),
            old(self)@.completion_noted(token, r, final(self)@),
    {
        if token == 0 {
            return None;
        }
        let ghost rows = self.submitted.rows();
        proof {
            self.submitted.lemma_rows();
        }
        match self.submitted.remove(&token) {
            None => None,
            Some(io_type) => {
                proof {
                    let at = choose|i: int|
                        #![trigger rows[i]]
                        0 <= i < rows.len() && rows[i].0@ == token && self.submitted.rows()
                            == rows.remove(i);
                    lemma_row_in_map(rows, at);
                    lemma_count_remove(rows, at, true);
                    lemma_count_remove(rows, at, false);
                    lemma_count_total(rows.remove(at));
                }
                if io_type.is_read() {
                    self.read_inflight = self.read_inflight.saturating_sub(1);
                } else {
                    self.write_inflight = self.write_inflight.saturating_sub(1);
                }
                Some(io_type)
            },
        }
    }
}

/// Recording a submission and then its completion leaves the transfers under way as they were.
pub proof fn completion_undoes_submission(m: WorkerModel, token: u64, io_type: IoType)
    requires
        !m.submitted.contains_key(token),
    ensures
        m.submitted.insert(token, io_type).remove(token) == m.submitted,
{
    assert(m.submitted.insert(token, io_type).remove(token) =~= m.submitted);
}

} // verus!
