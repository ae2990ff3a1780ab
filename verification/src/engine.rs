//! The dispatcher: pending and in-flight queues, submission policy, batching
//! and completion routing.
//!
//! The engine owns the requests that wait for a backend. It never calls the
//! backend, the raw primitives or the completion callback. [`Aio::submit_request`]
//! says what is to be done with a request; [`Aio::batch`] names the requests to
//! hand to the backend next and [`Aio::submitted`] takes the backend's answer;
//! [`Aio::handle_complete`] takes the events that the backend has reaped and
//! hands out the requests that they complete, each with its result.

use crate::error::AioError;
use crate::iov::iov_size;
use crate::mem::{gather, iov_is_zero, iovec_is_zero, HostMem, MemView};
use crate::misaligned::{zeros, JobView, MisalignedRw};
use crate::stream::lemma_gather_zeros;
use crate::bounce::spec_bounce_len;
use crate::request::{AioCb, OpCode, WriteZeroesState};
use std::collections::VecDeque;
use std::sync::atomic::{AtomicU64, Ordering};
use std::sync::Arc;
use vstd::math::min;
use vstd::prelude::*;

verus! {

/// Number of requests that a backend holds at most.
pub const MAX_EVENTS: usize = 128;

/// The backend that serves reads, writes and flushes.
#[derive(Debug, Clone, Copy, PartialEq, Eq, Structural)]
pub enum AioEngine {
    /// None: every request is served on the submitting thread.
    Off,
    /// Kernel asynchronous I/O.
    Native,
    /// Ring-based submission.
    IoUring,
}

/// A completion, as a backend reports it.
#[derive(Debug, Clone, Copy, PartialEq, Eq, Structural)]
pub struct AioEvent {
    /// Tag of the request that has completed.
    pub user_data: u64,
    /// Auxiliary error code; zero on success.
    pub status: i64,
    /// Bytes transferred, or a negative error.
    pub res: i64,
}

/// A request that has ended, with the result that its completion callback is
/// owed.
pub struct Completion<T> {
    pub cb: AioCb<T>,
    pub result: i64,
}

/// What is to be done with a request that the engine has taken.
pub enum Submitted<T> {
    /// The request is misaligned direct I/O. It is to be served now through
    /// `job`, and completed with the job's result.
    Misaligned { cb: AioCb<T>, job: MisalignedRw },
    /// The request is to be served now by the raw primitives, and completed
    /// with what `sync_begin` and `sync_after` of `cb` make of their results.
    Sync { cb: AioCb<T> },
    /// The request waits in the pending queue. With `flush` set the queues hold
    /// as many requests as the backend takes, and the pending queue is to be
    /// processed at once.
    Queued { flush: bool },
}

/// What the backend's answer to a batch has come to.
pub struct Flushed<T> {
    /// The request that the failed submission has cost, to be completed.
    pub failed: Option<Completion<T>>,
    /// The pending queue is to be processed further.
    pub again: bool,
}

/// The engine.
pub struct Aio<T> {
    engine: AioEngine,
    aio_in_queue: VecDeque<AioCb<T>>,
    aio_in_flight: VecDeque<AioCb<T>>,
    /// IO in aio_in_queue and aio_in_flight, published for other threads.
    incomplete_cnt: Arc<AtomicU64>,
    max_events: usize,
    next_tag: u64,
}

/// An [`Aio`] as a mathematical value. Either queue has its head at index 0.
#[verifier::ext_equal]
pub struct AioView<T> {
    pub engine: AioEngine,
    /// Requests taken and not yet handed to the backend, newest first.
    pub pending: Seq<AioCb<T>>,
    /// Requests that the backend holds.
    pub inflight: Seq<AioCb<T>>,
    pub max_events: usize,
    /// Tag of the next request to be queued.
    pub next_tag: u64,
}

/// The opcode under which a request is served: a write of nothing but zeros
/// becomes a zeroing call where the policy allows it, one that releases storage
/// where the policy asks for it and discard is enabled.
pub open spec fn promoted<T>(cb: AioCb<T>, mem: MemView) -> OpCode {
    if cb.opcode == OpCode::Pwritev && cb.write_zeroes != WriteZeroesState::Off && iov_is_zero(
        mem,
        cb.iovec@,
    ) {
        if cb.write_zeroes == WriteZeroesState::Unmap && cb.discard {
            OpCode::WriteZeroesUnmap
        } else {
            OpCode::WriteZeroes
        }
    } else {
        cb.opcode
    }
}

/// Promotion loses nothing: a write is promoted only where its vector yields
/// nothing but zeros, so that zeroing the range of the request leaves there
/// what the write would have left.
pub proof fn lemma_promoted_writes_zeros<T>(cb: AioCb<T>, mem: MemView)
    requires
        promoted(cb, mem) != cb.opcode,
        cb.nbytes <= iov_size(cb.iovec@),
    ensures
        cb.opcode == OpCode::Pwritev,
        promoted(cb, mem) == OpCode::WriteZeroes || promoted(cb, mem) == OpCode::WriteZeroesUnmap,
        gather(mem, cb.iovec@, 0, cb.nbytes as int) == (zeros(cb.nbytes as int), true),
{
    lemma_gather_zeros(mem, cb.iovec@, cb.nbytes as int);
}

/// The engine does not look at the host memory of a request that neither goes
/// through the bounce buffer nor may be a write of zeros: whatever memory it is
/// handed, it serves the request under the same opcode.
pub proof fn lemma_memory_unread<T>(cb: AioCb<T>, one: MemView, other: MemView)
    requires
        !cb.reads_memory(),
    ensures
        !cb.misaligned(),
        promoted(cb, one) == cb.opcode,
        promoted(cb, one) == promoted(cb, other),
{
}

/// A backend serves reads, writes and flushes; the other operations are always
/// served on the submitting thread.
pub open spec fn backend_serves(opcode: OpCode) -> bool {
    opcode == OpCode::Preadv || opcode == OpCode::Pwritev || opcode == OpCode::Fdsync
}

/// Index of the first request in `queue` that carries `tag`.
pub open spec fn position<T>(queue: Seq<AioCb<T>>, tag: u64) -> Option<int>
    decreases queue.len(),
{
    if queue.len() == 0 {
        None
    } else if queue[0].user_data == tag {
        Some(0)
    } else {
        match position(queue.skip(1), tag) {
            Some(i) => Some(i + 1),
            None => None,
        }
    }
}

/// Result owed to a request of `nbytes` bytes that `evt` completes: the bytes
/// transferred where the status is zero and all bytes were transferred, else -1.
pub open spec fn event_result(evt: AioEvent, nbytes: u64) -> i64 {
    if evt.status == 0 && evt.res == nbytes {
        evt.res
    } else {
        -1i64
    }
}

/// The in-flight queue after one event, and the completion that the event
/// gives rise to. An event whose tag no request in flight carries changes
/// nothing.
pub open spec fn reap_one<T>(inflight: Seq<AioCb<T>>, evt: AioEvent) -> (
    Seq<AioCb<T>>,
    Option<Completion<T>>,
) {
    match position(inflight, evt.user_data) {
        Some(i) => (
            inflight.remove(i),
            Some(Completion { cb: inflight[i], result: event_result(evt, inflight[i].nbytes) }),
        ),
        None => (inflight, None),
    }
}

/// The in-flight queue after a run of events, and the completions that they
/// give rise to, in the order of the events.
pub open spec fn reap<T>(inflight: Seq<AioCb<T>>, events: Seq<AioEvent>) -> (
    Seq<AioCb<T>>,
    Seq<Completion<T>>,
)
    decreases events.len(),
{
    if events.len() == 0 {
        (inflight, Seq::empty())
    } else {
        let first = reap_one(inflight, events[0]);
        let rest = reap(first.0, events.skip(1));
        (
            rest.0,
            match first.1 {
                Some(c) => seq![c] + rest.1,
                None => rest.1,
            },
        )
    }
}

impl<T> AioView<T> {
    /// An engine on the backend `engine`, with nothing queued.
    pub open spec fn fresh(engine: AioEngine) -> AioView<T> {
        AioView {
            engine,
            pending: Seq::empty(),
            inflight: Seq::empty(),
            max_events: MAX_EVENTS,
            next_tag: 0,
        }
    }

    /// The fields fit together: the backend never holds more than it takes,
    /// and without a backend nothing is queued.
    pub open spec fn wf(self) -> bool {
        &&& self.max_events == MAX_EVENTS
        &&& self.inflight.len() <= self.max_events
        &&& self.engine == AioEngine::Off ==> self.pending.len() == 0 && self.inflight.len() == 0
    }

    /// Number of requests that the engine holds.
    pub open spec fn incomplete(self) -> int {
        (self.pending.len() + self.inflight.len()) as int
    }

    /// The request goes to the pending queue.
    pub open spec fn queues(self, cb: AioCb<T>, mem: MemView) -> bool {
        &&& !cb.misaligned()
        &&& self.engine != AioEngine::Off
        &&& backend_serves(promoted(cb, mem))
        &&& self.next_tag < u64::MAX
    }

    /// The engine after it has taken `cb`: a request that goes to the pending
    /// queue is put at its head under the next tag; any other request leaves
    /// the engine as it was.
    pub open spec fn submit(self, cb: AioCb<T>, mem: MemView) -> AioView<T> {
        if self.queues(cb, mem) {
            AioView {
                pending: seq![AioCb { user_data: self.next_tag, ..cb }] + self.pending,
                next_tag: (self.next_tag + 1) as u64,
                ..self
            }
        } else {
            self
        }
    }

    /// Number of requests to hand to the backend next: as many of the pending
    /// ones as the backend has room for, and none without a backend.
    pub open spec fn batch_len(self) -> int {
        if self.engine == AioEngine::Off {
            0
        } else {
            min(self.pending.len() as int, self.max_events - self.inflight.len())
        }
    }

    /// Request `j` of the next batch: the batch starts with the oldest pending
    /// request.
    pub open spec fn batch_at(self, j: int) -> AioCb<T> {
        self.pending[self.pending.len() - 1 - j]
    }

    /// The engine after the backend has accepted the first `count` requests of
    /// the batch: they have moved, one after the other, from the tail of the
    /// pending queue to the head of the in-flight queue.
    pub open spec fn accept(self, count: int) -> AioView<T> {
        AioView {
            pending: self.pending.take(self.pending.len() - count),
            inflight: self.pending.skip(self.pending.len() - count) + self.inflight,
            ..self
        }
    }

    /// The engine after the backend has refused the batch with an error: the
    /// oldest pending request has left.
    pub open spec fn reject(self) -> AioView<T> {
        AioView { pending: self.pending.drop_last(), ..self }
    }

    /// The engine after the backend has answered to the batch with `accepted`,
    /// the number of requests taken, or `None` for an error.
    pub open spec fn submitted(self, accepted: Option<usize>) -> AioView<T> {
        if self.batch_len() == 0 {
            self
        } else {
            match accepted {
                Some(count) => self.accept(min(count as int, self.batch_len())),
                None => self.reject(),
            }
        }
    }

    /// The request that the backend's answer has cost: on an error the oldest
    /// pending request fails.
    pub open spec fn submit_failed(self, accepted: Option<usize>) -> Option<Completion<T>> {
        if self.batch_len() > 0 && accepted is None {
            Some(Completion { cb: self.pending.last(), result: -1i64 })
        } else {
            None
        }
    }

    /// After the backend's answer the pending queue is to be processed
    /// further: there is a next batch, and the backend has not just taken
    /// nothing.
    pub open spec fn submit_again(self, accepted: Option<usize>) -> bool {
        &&& self.batch_len() > 0
        &&& accepted != Some(0usize)
        &&& self.submitted(accepted).batch_len() > 0
    }

    /// The engine after the backend has reported `events`.
    pub open spec fn reaped(self, events: Seq<AioEvent>) -> AioView<T> {
        AioView { inflight: reap(self.inflight, events).0, ..self }
    }
}

/// `res` is the answer that a request is owed by an engine that stood at `aio`
/// when it took the request.
///
/// Misaligned direct I/O is answered with a fresh bounce job for the request,
/// or fails with `RoundLength` where the length of the bounce buffer cannot be
/// had. A request without an operation fails with `NoOpcode`. A request that
/// the backend serves is queued, or fails with `NoTag` when the tags have run
/// out. Every other request is to be served on the submitting thread, under
/// its promoted opcode.
pub open spec fn submit_answer<T>(
    aio: AioView<T>,
    cb: AioCb<T>,
    mem: MemView,
    res: Result<Submitted<T>, AioError>,
) -> bool {
    if cb.misaligned() {
        match res {
            Ok(Submitted::Misaligned { cb: served, job }) => {
                &&& served == cb
                &&& job@.wf()
                &&& job@ == JobView::fresh(
                    cb.opcode,
                    cb.offset,
                    cb.nbytes,
                    cb.req_align as u64,
                    spec_bounce_len(cb.nbytes as int, cb.req_align as int) as u64,
                    cb.iovec@,
                )
                &&& cb.req_align != 0
                &&& cb.nbytes + 2 * cb.req_align <= u64::MAX
            },
            Ok(_) => false,
            Err(e) => e == AioError::RoundLength && (cb.req_align == 0 || cb.nbytes + 2
                * cb.req_align > u64::MAX),
        }
    } else if promoted(cb, mem) == OpCode::Noop {
        res == Err::<Submitted<T>, AioError>(AioError::NoOpcode)
    } else if aio.engine != AioEngine::Off && backend_serves(promoted(cb, mem)) {
        if aio.next_tag < u64::MAX {
            res == Ok::<Submitted<T>, AioError>(
                Submitted::Queued { flush: aio.incomplete() + 1 >= aio.max_events },
            )
        } else {
            res == Err::<Submitted<T>, AioError>(AioError::NoTag)
        }
    } else {
        res == Ok::<Submitted<T>, AioError>(
            Submitted::Sync { cb: AioCb { opcode: promoted(cb, mem), ..cb } },
        )
    }
}

/// `position` finds a request that carries the tag, and none before it does.
pub proof fn lemma_position<T>(queue: Seq<AioCb<T>>, tag: u64)
    ensures
        match position(queue, tag) {
            Some(i) => 0 <= i < queue.len() && queue[i].user_data == tag && forall|j: int|
                0 <= j < i ==> (#[trigger] queue[j]).user_data != tag,
            None => forall|j: int| 0 <= j < queue.len() ==> (#[trigger] queue[j]).user_data != tag,
        },
    decreases queue.len(),
{
    if queue.len() > 0 && queue[0].user_data != tag {
        lemma_position(queue.skip(1), tag);
        match position(queue.skip(1), tag) {
            Some(i) => {
                assert forall|j: int| 0 <= j < i + 1 implies (#[trigger] queue[j]).user_data
                    != tag by {
                    if j > 0 {
                        assert(queue.skip(1)[j - 1].user_data != tag);
                    }
                }
            },
            None => {
                assert forall|j: int| 0 <= j < queue.len() implies (#[trigger] queue[j]).user_data
                    != tag by {
                    if j > 0 {
                        assert(queue.skip(1)[j - 1].user_data != tag);
                    }
                }
            },
        }
    }
}

/// A request that `first` is the first in `queue` to carry `tag` is where
/// `position` finds it.
pub proof fn lemma_position_is<T>(queue: Seq<AioCb<T>>, tag: u64, first: int)
    requires
        0 <= first < queue.len(),
        queue[first].user_data == tag,
        forall|j: int| 0 <= j < first ==> (#[trigger] queue[j]).user_data != tag,
    ensures
        position(queue, tag) == Some(first),
{
    lemma_position(queue, tag);
}

impl<T> View for Aio<T> {
    type V = AioView<T>;

    closed spec fn view(&self) -> AioView<T> {
        AioView {
            engine: self.engine,
            pending: self.aio_in_queue@,
            inflight: self.aio_in_flight@,
            max_events: self.max_events,
            next_tag: self.next_tag,
        }
    }
}

impl<T> Aio<T> {
    /// An engine on the backend `engine`, with nothing queued.
    pub fn new(engine: AioEngine) -> (aio: Self)
        ensures
            aio@.wf(),
            aio@ == AioView::<T>::fresh(engine),
    {
        Aio {
            engine,
            aio_in_queue: VecDeque::new(),
            aio_in_flight: VecDeque::new(),
            incomplete_cnt: Arc::new(AtomicU64::new(0)),
            max_events: MAX_EVENTS,
            next_tag: 0,
        }
    }

    pub fn get_engine(&self) -> (engine: AioEngine)
        ensures
            engine == self@.engine,
    {
        self.engine
    }

    /// Number of requests that the engine holds: those that wait for the
    /// backend and those that the backend holds.
    pub fn incomplete(&self) -> (count: usize)
        requires
            self@.incomplete() <= usize::MAX,
        ensures
            count == self@.incomplete(),
    {
        self.aio_in_queue.len() + self.aio_in_flight.len()
    }

    /// Number of requests that wait for the backend.
    pub fn pending_len(&self) -> (count: usize)
        ensures
            count == self@.pending.len(),
    {
        self.aio_in_queue.len()
    }

    /// Number of requests that the backend holds.
    pub fn in_flight_len(&self) -> (count: usize)
        ensures
            count == self@.inflight.len(),
    {
        self.aio_in_flight.len()
    }

    /// The published count of requests held, for threads that wait for the
    /// engine to drain.
    pub fn incomplete_cnt(&self) -> (cnt: &Arc<AtomicU64>)
        ensures
            *cnt == self.published(),
    {
        &self.incomplete_cnt
    }

    /// The counter on which the engine publishes how many requests it holds.
    /// It is made with the engine, and no call on the engine puts another in
    /// its place: a thread that has taken it once watches the right counter
    /// for as long as the engine lives.
    pub closed spec fn published(&self) -> Arc<AtomicU64> {
        self.incomplete_cnt
    }

    /// Publishes that one more request is held.
    fn publish_queued(&self) {
        let _ = self.incomplete_cnt.fetch_add(1, Ordering::SeqCst);
    }

    /// Publishes that one request fewer is held.
    fn publish_done(&self) {
        let _ = self.incomplete_cnt.fetch_sub(1, Ordering::SeqCst);
    }

    /// Puts `cb` at the head of the pending queue under the next tag.
    fn rw_async(&mut self, cb: AioCb<T>) -> (flush: bool)
        requires
            old(self)@.wf(),
            old(self)@.engine != AioEngine::Off,
            old(self)@.next_tag < u64::MAX,
        ensures
            final(self)@.wf(),
            final(self).published() == old(self).published(),
            final(self)@ == (AioView {
                pending: seq![AioCb { user_data: old(self)@.next_tag, ..cb }] + old(self)@.pending,
                next_tag: (old(self)@.next_tag + 1) as u64,
                ..old(self)@
            }),
            flush == (final(self)@.incomplete() >= old(self)@.max_events),
    {
        let mut cb = cb;
        cb.user_data = self.next_tag;
        self.next_tag = self.next_tag + 1;
        self.aio_in_queue.push_front(cb);
        self.publish_queued();
        let waiting: usize = self.aio_in_queue.len();
        let room: usize = self.max_events - self.aio_in_flight.len();
        waiting >= room
    }

    /// Takes a request and says what is to be done with it.
    ///
    /// Misaligned direct I/O is served through the bounce buffer, and fails at
    /// once where the length of that buffer cannot be had. Any other request is
    /// served under its promoted opcode: by the backend where there is one and
    /// it serves the operation, else on the submitting thread. A request
    /// without an operation fails at once, and so does one for the backend
    /// when no tag is left. Only a request for the backend changes the engine.
    pub fn submit_request(&mut self, cb: AioCb<T>, mem: &HostMem) -> (res: Result<
        Submitted<T>,
        AioError,
    >)
        requires
            old(self)@.wf(),
        ensures
            final(self)@.wf(),
            final(self).published() == old(self).published(),
            final(self)@ == old(self)@.submit(cb, mem@),
            submit_answer(old(self)@, cb, mem@, res),
    {
        let mut cb = cb;
        if cb.request_misaligned() {
            return match MisalignedRw::new(
                cb.opcode,
                cb.offset,
                cb.nbytes,
                cb.req_align,
                cb.iovec.as_slice(),
            ) {
                Ok(job) => Ok(Submitted::Misaligned { cb, job }),
                Err(e) => Err(e),
            };
        }
        if cb.opcode == OpCode::Pwritev && cb.write_zeroes != WriteZeroesState::Off
            && iovec_is_zero(mem, cb.iovec.as_slice()) {
            cb.opcode = OpCode::WriteZeroes;
            if cb.write_zeroes == WriteZeroesState::Unmap && cb.discard {
                cb.opcode = OpCode::WriteZeroesUnmap;
            }
        }
        match cb.opcode {
            OpCode::Preadv | OpCode::Pwritev | OpCode::Fdsync => {
                if self.engine != AioEngine::Off {
                    if self.next_tag == u64::MAX {
                        return Err(AioError::NoTag);
                    }
                    let flush = self.rw_async(cb);
                    Ok(Submitted::Queued { flush })
                } else {
                    Ok(Submitted::Sync { cb })
                }
            },
            OpCode::Discard | OpCode::WriteZeroes | OpCode::WriteZeroesUnmap => Ok(
                Submitted::Sync { cb },
            ),
            OpCode::Noop => Err(AioError::NoOpcode),
        }
    }

    /// The requests to hand to the backend next, oldest first. The batch is
    /// empty when there is nothing to submit: without a backend, with nothing
    /// pending, or with the backend full.
    pub fn batch(&self) -> (batch: Vec<&AioCb<T>>)
        requires
            self@.wf(),
        ensures
            batch@.len() == self@.batch_len(),
            forall|j: int| 0 <= j < batch@.len() ==> *(#[trigger] batch@[j]) == self@.batch_at(j),
    {
        let mut batch: Vec<&AioCb<T>> = Vec::new();
        if self.engine == AioEngine::Off {
            return batch;
        }
        let waiting: usize = self.aio_in_queue.len();
        let room: usize = self.max_events - self.aio_in_flight.len();
        let count: usize = if waiting < room {
            waiting
        } else {
            room
        };
        let mut j: usize = 0;
        while j < count
            invariant
                0 <= j <= count <= waiting,
                waiting == self.aio_in_queue@.len(),
                batch@.len() == j,
                forall|k: int|
                    0 <= k < j ==> *(#[trigger] batch@[k]) == self.aio_in_queue@[waiting - 1 - k],
            decreases count - j,
        {
            batch.push(&self.aio_in_queue[waiting - 1 - j]);
            j = j + 1;
        }
        batch
    }

    /// Takes the backend's answer to the batch: `accepted` is the number of
    /// requests that it has taken, or `None` when the submission failed.
    ///
    /// The requests taken move to the in-flight queue; an answer that names
    /// more than the batch held counts for the whole batch. On a failure the
    /// oldest pending request leaves the engine and is handed out to be
    /// completed with -1. When there was no batch, nothing happens.
    pub fn submitted(&mut self, accepted: Option<usize>) -> (res: Flushed<T>)
        requires
            old(self)@.wf(),
        ensures
            final(self)@.wf(),
            final(self).published() == old(self).published(),
            final(self)@ == old(self)@.submitted(accepted),
            res.failed == old(self)@.submit_failed(accepted),
            res.again == old(self)@.submit_again(accepted),
    {
        if self.engine == AioEngine::Off {
            return Flushed { failed: None, again: false };
        }
        let waiting: usize = self.aio_in_queue.len();
        let room: usize = self.max_events - self.aio_in_flight.len();
        let offered: usize = if waiting < room {
            waiting
        } else {
            room
        };
        if offered == 0 {
            return Flushed { failed: None, again: false };
        }
        match accepted {
            None => {
                let failed = match self.aio_in_queue.pop_back() {
                    Some(cb) => {
                        self.publish_done();
                        Some(Completion { cb, result: -1 })
                    },
                    None => None,
                };
                let again: bool = self.aio_in_queue.len() > 0;
                Flushed { failed, again }
            },
            Some(count) => {
                let taken: usize = if count < offered {
                    count
                } else {
                    offered
                };
                let mut j: usize = 0;
                while j < taken
                    invariant
                        0 <= j <= taken <= offered,
                        offered <= waiting,
                        offered <= self.max_events - old(self)@.inflight.len(),
                        waiting == old(self)@.pending.len(),
                        self.engine == old(self)@.engine,
                        self.max_events == old(self)@.max_events,
                        self.next_tag == old(self)@.next_tag,
                        self.published() == old(self).published(),
                        self.aio_in_queue@ == old(self)@.pending.take(waiting - j),
                        self.aio_in_flight@ == old(self)@.pending.skip(waiting - j) + old(
                            self,
                        )@.inflight,
                    decreases taken - j,
                {
                    match self.aio_in_queue.pop_back() {
                        Some(cb) => {
                            self.aio_in_flight.push_front(cb);
                        },
                        None => {},
                    }
                    j = j + 1;
                }
                let left: usize = self.aio_in_queue.len();
                let space: usize = self.max_events - self.aio_in_flight.len();
                Flushed { failed: None, again: taken > 0 && left > 0 && space > 0 }
            },
        }
    }

    /// Index of the first request in flight that carries `tag`.
    fn find_in_flight(&self, tag: u64) -> (res: Option<usize>)
        ensures
            match res {
                Some(i) => i < self@.inflight.len() && position(self@.inflight, tag) == Some(
                    i as int,
                ),
                None => position(self@.inflight, tag) is None,
            },
    {
        let count: usize = self.aio_in_flight.len();
        let mut i: usize = 0;
        while i < count
            invariant
                0 <= i <= count,
                count == self.aio_in_flight@.len(),
                forall|j: int| 0 <= j < i ==> (#[trigger] self.aio_in_flight@[j]).user_data != tag,
            decreases count - i,
        {
            if self.aio_in_flight[i].user_data == tag {
                proof {
                    lemma_position_is(self.aio_in_flight@, tag, i as int);
                }
                return Some(i);
            }
            i = i + 1;
        }
        proof {
            lemma_position(self.aio_in_flight@, tag);
        }
        None
    }

    /// Takes the events that the backend has reaped, and hands out the
    /// requests that they complete, each with its result, in the order of the
    /// events. The flag tells whether an event was seen; without a backend it
    /// is false.
    ///
    /// Each request handed out has left the in-flight queue. An event whose
    /// tag no request in flight carries is passed over.
    pub fn handle_complete(&mut self, events: &[AioEvent]) -> (res: (Vec<Completion<T>>, bool))
        requires
            old(self)@.wf(),
        ensures
            final(self)@.wf(),
            final(self).published() == old(self).published(),
            final(self)@ == old(self)@.reaped(events@),
            res.0@ == reap(old(self)@.inflight, events@).1,
            res.1 == (old(self)@.engine != AioEngine::Off && events@.len() > 0),
    {
        let mut done: Vec<Completion<T>> = Vec::new();
        let count: usize = events.len();
        let mut k: usize = 0;
        proof {
            assert(events@.skip(0) =~= events@);
            assert(done@ + reap(self@.inflight, events@).1 =~= reap(self@.inflight, events@).1);
        }
        while k < count
            invariant
                0 <= k <= count,
                count == events@.len(),
                self.engine == old(self)@.engine,
                self.max_events == old(self)@.max_events,
                self.next_tag == old(self)@.next_tag,
                self.published() == old(self).published(),
                self.aio_in_queue@ == old(self)@.pending,
                self.aio_in_flight@.len() <= old(self)@.inflight.len(),
                reap(old(self)@.inflight, events@).0 == reap(
                    self.aio_in_flight@,
                    events@.skip(k as int),
                ).0,
                reap(old(self)@.inflight, events@).1 == done@ + reap(
                    self.aio_in_flight@,
                    events@.skip(k as int),
                ).1,
            decreases count - k,
        {
            let evt = events[k];
            let ghost before = self.aio_in_flight@;
            let ghost sofar = done@;
            let ghost here = reap(before, events@.skip(k as int));
            let ghost one = reap_one(before, evt);
            proof {
                assert(events@.skip(k as int)[0] == evt);
                assert(events@.skip(k as int).skip(1) =~= events@.skip(k + 1));
                assert(here.0 == reap(one.0, events@.skip(k + 1)).0);
                assert(here.1 == match one.1 {
                    Some(c) => seq![c] + reap(one.0, events@.skip(k + 1)).1,
                    None => reap(one.0, events@.skip(k + 1)).1,
                });
            }
            match self.find_in_flight(evt.user_data) {
                None => {},
                Some(i) => {
                    match self.aio_in_flight.remove(i) {
                        None => {},
                        Some(cb) => {
                            let result: i64 = if evt.status == 0 && evt.res >= 0 && evt.res as u64
                                == cb.nbytes {
                                evt.res
                            } else {
                                -1
                            };
                            self.publish_done();
                            done.push(Completion { cb, result });
                            proof {
                                let rest = reap(self.aio_in_flight@, events@.skip(k + 1)).1;
                                assert(self.aio_in_flight@ == one.0);
                                assert(one.1 == Some(done@.last()));
                                assert(done@ + rest =~= sofar + (seq![done@.last()] + rest));
                            }
                        },
                    }
                },
            }
            k = k + 1;
        }
        proof {
            assert(events@.skip(k as int) =~= Seq::<AioEvent>::empty());
            assert(done@ + Seq::<Completion<T>>::empty() =~= done@);
        }
        (done, self.engine != AioEngine::Off && count > 0)
    }
}

} // verus!
