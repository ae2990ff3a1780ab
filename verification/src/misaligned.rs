//! Misaligned direct I/O through a bounce buffer.
//!
//! A [`MisalignedRw`] serves one misaligned read or write. It does no I/O. Each
//! call of [`MisalignedRw::step`] takes the outcome of the raw operation that
//! the step before asked for, and answers with the next raw operation or with
//! the result of the request.
//!
//! A read walks the widened range window by window: it asks for the window,
//! then stores the part of it that the request covers through the caller's
//! vector. A write first loads the first cell where the request starts inside
//! it. Then, window by window, it loads the last cell where the request ends
//! inside it, fills the part that the request covers from the caller's vector,
//! and asks for the whole window to be written.

use crate::bounce::{bounce_len, spec_bounce_len, spec_span, Span, MAX_LEN_BOUNCE_BUFF};
use crate::bounce::{lemma_span, lemma_window};
use crate::num_ops::{lemma_multiples_add, lemma_multiples_apart};
use crate::error::AioError;
use crate::iov::{discard_front, iov_discard_front_direct, Iovec};
use crate::mem::{copy_bytes, gather, gather_into, iov_from_buf_direct, scatter, HostMem, MemView};
use crate::request::OpCode;
use vstd::prelude::*;
use vstd::slice::{slice_subrange, slice_to_vec};

verus! {

/// What a job waits for.
#[derive(Debug, Clone, Copy, PartialEq, Eq, Structural)]
pub enum Phase {
    /// Nothing has been asked for yet.
    Start,
    /// The first cell of a write is being loaded.
    Head,
    /// The last cell of a write is being loaded.
    Tail,
    /// A window of a read is being loaded.
    Load,
    /// A window of a write is being stored.
    Store,
    /// The request has ended.
    Done,
}

/// The outcome of a raw operation, as the host reports it.
pub enum RawEvent {
    /// Nothing has happened yet.
    Begin,
    /// A raw read has returned `ret`, and `data` holds the bytes read.
    Read { ret: i64, data: Vec<u8> },
    /// A raw write has returned `ret`.
    Written { ret: i64 },
}

/// A [`RawEvent`] as a mathematical value.
pub enum EventView {
    Begin,
    Read { ret: i64, data: Seq<u8> },
    Written { ret: i64 },
}

impl View for RawEvent {
    type V = EventView;

    open spec fn view(&self) -> EventView {
        match self {
            RawEvent::Begin => EventView::Begin,
            RawEvent::Read { ret, data } => EventView::Read { ret: *ret, data: data@ },
            RawEvent::Written { ret } => EventView::Written { ret: *ret },
        }
    }
}

/// The next raw operation of a job, or its end.
#[derive(Debug, Clone, Copy, PartialEq, Eq, Structural)]
pub enum RawAction {
    /// Read `len` bytes at file offset `offset`.
    Read { offset: u64, len: u64 },
    /// Write the first `len` bytes of the bounce buffer at file offset `offset`.
    Write { offset: u64, len: u64 },
    /// The request has ended with `result`: 0 on success, -1 on failure.
    Done { result: i64 },
}

/// A misaligned direct read or write in progress.
pub struct MisalignedRw {
    opcode: OpCode,
    offset: u64,
    nbytes: u64,
    align: u64,
    window: u64,
    span: Span,
    cursor: u64,
    iov: Vec<Iovec>,
    buffer: Vec<u8>,
    phase: Phase,
    result: i64,
}

/// A [`MisalignedRw`] as a mathematical value.
#[verifier::ext_equal]
pub struct JobView {
    pub opcode: OpCode,
    /// File offset of the request.
    pub offset: u64,
    /// Length of the request.
    pub nbytes: u64,
    /// Size of an alignment cell.
    pub align: u64,
    /// Length of the bounce buffer, and so of a full window.
    pub window: u64,
    /// The request's byte range and its widening, once the job has begun.
    pub span: Span,
    /// Start of the window at hand.
    pub cursor: u64,
    /// What is left of the caller's vector.
    pub iov: Seq<Iovec>,
    /// The bounce buffer of a write.
    pub buffer: Seq<u8>,
    pub phase: Phase,
    /// Result of the request, once it has ended.
    pub result: i64,
}

/// `len` zero bytes.
pub open spec fn zeros(len: int) -> Seq<u8> {
    Seq::new(len as nat, |i: int| 0u8)
}

impl JobView {
    /// The job of a request that has not begun.
    pub open spec fn fresh(
        opcode: OpCode,
        offset: u64,
        nbytes: u64,
        align: u64,
        window: u64,
        iov: Seq<Iovec>,
    ) -> JobView {
        JobView {
            opcode,
            offset,
            nbytes,
            align,
            window,
            span: Span { low: 0, high: 0, low_align: 0, high_align: 0, align: 0, window: 0 },
            cursor: 0,
            iov,
            buffer: Seq::empty(),
            phase: Phase::Start,
            result: 0,
        }
    }

    /// A raw operation is outstanding.
    pub open spec fn active(self) -> bool {
        self.phase is Head || self.phase is Tail || self.phase is Load || self.phase is Store
    }

    /// The cell size and the buffer length are in range.
    pub open spec fn sized(self) -> bool {
        0 < self.align && 0 < self.window <= MAX_LEN_BOUNCE_BUFF
    }

    /// The job has begun: it is a read or a write, its span is that of its
    /// request, and a write has its bounce buffer.
    pub open spec fn ready(self) -> bool {
        &&& self.sized()
        &&& spec_span(self.offset, self.nbytes, self.align, self.window) == Some(self.span)
        &&& self.opcode == OpCode::Pwritev || self.opcode == OpCode::Preadv
        &&& self.opcode == OpCode::Pwritev ==> self.buffer.len() == self.window
    }

    /// The fields fit together.
    pub open spec fn wf(self) -> bool {
        &&& self.sized()
        &&& self.phase is Done ==> self.buffer.len() == 0 && self.iov.len() == 0
        &&& self.active() ==> {
            &&& self.ready()
            &&& self.span.starts_window(self.cursor)
            &&& self.phase is Load <==> self.opcode == OpCode::Preadv
            &&& self.phase is Head ==> self.cursor == self.span.low_align && self.span.needs_head()
            &&& self.phase is Tail ==> self.span.needs_tail() && self.span.ends_at(
                self.span.spec_window_at(self.cursor),
            )
        }
    }

    /// The job is a write that has not begun and can be widened: its first
    /// step allocates the bounce buffer.
    pub open spec fn needs_buffer(self) -> bool {
        &&& self.phase is Start
        &&& self.opcode == OpCode::Pwritev
        &&& spec_span(self.offset, self.nbytes, self.align, self.window) is Some
    }

    /// The job after the request has ended with `result`: the bounce buffer is
    /// freed and the vector dropped.
    pub open spec fn finish(self, result: i64) -> JobView {
        JobView { phase: Phase::Done, result, buffer: Seq::empty(), iov: Seq::empty(), ..self }
    }

    /// The request fails.
    pub open spec fn fail(self) -> (JobView, RawAction) {
        (self.finish(-1i64), RawAction::Done { result: -1i64 })
    }

    /// A read turns to the window that starts at `at`: it asks for the window.
    pub open spec fn enter_load(self, at: u64) -> (JobView, RawAction) {
        (
            JobView { phase: Phase::Load, cursor: at, ..self },
            RawAction::Read { offset: at, len: self.span.spec_window_at(at).len },
        )
    }

    /// A write turns to the window that starts at `at`: where the request ends
    /// in this window and the last cell is owed, it asks for that cell, else it
    /// fills the window.
    pub open spec fn enter_store(self, mem: MemView, at: u64) -> (JobView, RawAction) {
        let w = self.span.spec_window_at(at);
        let job = JobView { cursor: at, ..self };
        if w.real_high == self.span.high && self.span.needs_tail() {
            (
                JobView { phase: Phase::Tail, ..job },
                RawAction::Read { offset: (at + w.len - self.align) as u64, len: self.align },
            )
        } else {
            job.fill(mem)
        }
    }

    /// A write fills the part of the window at hand that the request covers
    /// from the caller's vector, and asks for the window to be written. It
    /// fails where the vector leaves the host memory or holds too few bytes.
    pub open spec fn fill(self, mem: MemView) -> (JobView, RawAction) {
        let w = self.span.spec_window_at(self.cursor);
        let want = w.real_high - w.real_offset;
        let at = w.real_offset - w.offset;
        let got = gather(mem, self.iov, 0, want);
        if got.1 && got.0.len() == want {
            (
                JobView {
                    phase: Phase::Store,
                    buffer: self.buffer.take(at) + got.0 + self.buffer.skip(at + want),
                    ..self
                },
                RawAction::Write { offset: w.offset, len: w.len },
            )
        } else {
            self.fail()
        }
    }

    /// The window at hand is dealt with: the request ends where it was the
    /// last one; else the part of the vector that it used is dropped, and the
    /// job turns to the next window.
    pub open spec fn advance(self, mem: MemView) -> (JobView, RawAction) {
        let w = self.span.spec_window_at(self.cursor);
        if self.span.ends_at(w) {
            (self.finish(0), RawAction::Done { result: 0 })
        } else {
            match discard_front(self.iov, w.real_high - w.real_offset) {
                None => self.fail(),
                Some(rest) => {
                    let job = JobView { iov: rest, ..self };
                    let next = (self.cursor + w.len) as u64;
                    if self.opcode == OpCode::Pwritev {
                        job.enter_store(mem, next)
                    } else {
                        job.enter_load(next)
                    }
                },
            }
        }
    }

    /// The first step: it widens the request. A read turns to the first
    /// window. A write gets its bounce buffer, and asks for the first cell
    /// where the request starts inside it, else it turns to the first window.
    pub open spec fn begin(self, mem: MemView) -> (JobView, RawAction) {
        if self.opcode != OpCode::Preadv && self.opcode != OpCode::Pwritev {
            self.fail()
        } else {
            match spec_span(self.offset, self.nbytes, self.align, self.window) {
                None => self.fail(),
                Some(span) => {
                    let job = JobView { span, cursor: span.low_align, ..self };
                    if self.opcode == OpCode::Preadv {
                        job.enter_load(span.low_align)
                    } else {
                        let job = JobView { buffer: zeros(self.window as int), ..job };
                        if span.needs_head() {
                            (
                                JobView { phase: Phase::Head, ..job },
                                RawAction::Read { offset: span.low_align, len: self.align },
                            )
                        } else {
                            job.enter_store(mem, span.low_align)
                        }
                    }
                },
            }
        }
    }

    /// The first cell of a write has been read: a whole cell goes to the start
    /// of the bounce buffer, and the job turns to the first window; anything
    /// else fails the request.
    pub open spec fn head_loaded(self, mem: MemView, ret: i64, data: Seq<u8>) -> (
        JobView,
        RawAction,
    ) {
        if ret == self.align && data.len() == ret {
            JobView { buffer: data + self.buffer.skip(self.align as int), ..self }.enter_store(
                mem,
                self.span.low_align,
            )
        } else {
            self.fail()
        }
    }

    /// The last cell of a write has been read: a whole cell goes to the end of
    /// the window, and the window is filled; anything else fails the request.
    pub open spec fn tail_loaded(self, mem: MemView, ret: i64, data: Seq<u8>) -> (
        JobView,
        RawAction,
    ) {
        let w = self.span.spec_window_at(self.cursor);
        if ret == self.align && data.len() == ret {
            JobView {
                buffer: self.buffer.take(w.len - self.align) + data + self.buffer.skip(
                    w.len as int,
                ),
                ..self
            }.fill(mem)
        } else {
            self.fail()
        }
    }

    /// A window of a write has been written: a whole window lets the job go
    /// on; anything else fails the request.
    pub open spec fn stored(self, mem: MemView, ret: i64) -> (JobView, RawAction) {
        if ret == self.span.spec_window_at(self.cursor).len {
            self.advance(mem)
        } else {
            self.fail()
        }
    }

    /// A window of a read has been read. The read may be short, as long as it
    /// reaches the end of the part that the request covers. That part is stored
    /// through the caller's vector, and the job goes on. It fails on a read
    /// error, on a read that is too short, and where the vector leaves the host
    /// memory or has too little room.
    pub open spec fn loaded(self, mem: MemView, ret: i64, data: Seq<u8>) -> (
        JobView,
        MemView,
        RawAction,
    ) {
        let w = self.span.spec_window_at(self.cursor);
        if ret < 0 || data.len() != ret || ret < w.real_high - w.offset {
            (self.fail().0, mem, self.fail().1)
        } else {
            let part = data.subrange(w.real_offset - w.offset, w.real_high - w.offset);
            let out = scatter(mem, self.iov, part);
            if out.1 == Some(w.real_high - w.real_offset) {
                (self.advance(out.0).0, out.0, self.advance(out.0).1)
            } else {
                (self.fail().0, out.0, self.fail().1)
            }
        }
    }
}

/// One step of a job: the job and the host memory afterwards, and what the job
/// asks for next.
///
/// An event that the job does not wait for fails the request. A job that has
/// ended stays as it is and repeats its result.
pub open spec fn step_spec(job: JobView, mem: MemView, event: EventView) -> (
    JobView,
    MemView,
    RawAction,
) {
    match job.phase {
        Phase::Done => (job, mem, RawAction::Done { result: job.result }),
        Phase::Start => match event {
            EventView::Begin => (job.begin(mem).0, mem, job.begin(mem).1),
            _ => (job.fail().0, mem, job.fail().1),
        },
        Phase::Head => match event {
            EventView::Read { ret, data } => (
                job.head_loaded(mem, ret, data).0,
                mem,
                job.head_loaded(mem, ret, data).1,
            ),
            _ => (job.fail().0, mem, job.fail().1),
        },
        Phase::Tail => match event {
            EventView::Read { ret, data } => (
                job.tail_loaded(mem, ret, data).0,
                mem,
                job.tail_loaded(mem, ret, data).1,
            ),
            _ => (job.fail().0, mem, job.fail().1),
        },
        Phase::Load => match event {
            EventView::Read { ret, data } => job.loaded(mem, ret, data),
            _ => (job.fail().0, mem, job.fail().1),
        },
        Phase::Store => match event {
            EventView::Written { ret } => (job.stored(mem, ret).0, mem, job.stored(mem, ret).1),
            _ => (job.fail().0, mem, job.fail().1),
        },
    }
}

/// The raw operation is one that the walk over the widened range of the job
/// calls for. A write stores a window. A read loads a window for a read
/// request, and one cell for a write request. Either lies inside the widened
/// range.
pub open spec fn asks_inside(job: JobView, action: RawAction) -> bool {
    match action {
        RawAction::Done { .. } => true,
        RawAction::Read { offset, len } => {
            &&& job.ready()
            &&& job.span.low_align <= offset
            &&& offset + len <= job.span.high_align
            &&& if job.opcode == OpCode::Preadv {
                job.span.starts_window(offset) && len == job.span.spec_window_at(offset).len
            } else {
                offset % job.span.align == 0 && len == job.span.align
            }
        },
        RawAction::Write { offset, len } => {
            &&& job.ready()
            &&& job.opcode == OpCode::Pwritev
            &&& job.span.low_align <= offset
            &&& offset + len <= job.span.high_align
            &&& job.span.starts_window(offset)
            &&& len == job.span.spec_window_at(offset).len
        },
    }
}

proof fn lemma_enter_load_inside(job: JobView, at: u64)
    requires
        job.ready(),
        job.opcode == OpCode::Preadv,
        job.span.starts_window(at),
    ensures
        asks_inside(job.enter_load(at).0, job.enter_load(at).1),
{
    lemma_span(job.span);
    lemma_window(job.span, at);
}

proof fn lemma_fill_inside(job: JobView, mem: MemView)
    requires
        job.ready(),
        job.opcode == OpCode::Pwritev,
        job.span.starts_window(job.cursor),
    ensures
        asks_inside(job.fill(mem).0, job.fill(mem).1),
{
    lemma_span(job.span);
    lemma_window(job.span, job.cursor);
}

proof fn lemma_enter_store_inside(job: JobView, mem: MemView, at: u64)
    requires
        job.ready(),
        job.opcode == OpCode::Pwritev,
        job.span.starts_window(at),
    ensures
        asks_inside(job.enter_store(mem, at).0, job.enter_store(mem, at).1),
{
    let span = job.span;
    let w = span.spec_window_at(at);
    lemma_span(span);
    lemma_window(span, at);
    lemma_fill_inside(JobView { cursor: at, ..job }, mem);
    if w.real_high == span.high && span.needs_tail() {
        vstd::arithmetic::div_mod::lemma_mod_self_0(span.align as int);
        lemma_multiples_add(at as int, w.len as int, span.align as int);
        lemma_multiples_apart(span.align as int, at + w.len, span.align as int);
    }
}

proof fn lemma_advance_inside(job: JobView, mem: MemView)
    requires
        job.ready(),
        job.span.starts_window(job.cursor),
    ensures
        asks_inside(job.advance(mem).0, job.advance(mem).1),
{
    let w = job.span.spec_window_at(job.cursor);
    lemma_span(job.span);
    lemma_window(job.span, job.cursor);
    if !job.span.ends_at(w) {
        match discard_front(job.iov, w.real_high - w.real_offset) {
            None => {},
            Some(rest) => {
                let on = JobView { iov: rest, ..job };
                let next = (job.cursor + w.len) as u64;
                if job.opcode == OpCode::Pwritev {
                    lemma_enter_store_inside(on, mem, next);
                } else {
                    lemma_enter_load_inside(on, next);
                }
            },
        }
    }
}

proof fn lemma_begin_inside(job: JobView, mem: MemView)
    requires
        job.sized(),
        job.phase is Start,
    ensures
        asks_inside(job.begin(mem).0, job.begin(mem).1),
{
    if job.opcode == OpCode::Preadv || job.opcode == OpCode::Pwritev {
        match spec_span(job.offset, job.nbytes, job.align, job.window) {
            None => {},
            Some(span) => {
                lemma_span(span);
                lemma_window(span, span.low_align);
                let first = JobView { span, cursor: span.low_align, ..job };
                if job.opcode == OpCode::Preadv {
                    lemma_enter_load_inside(first, span.low_align);
                } else {
                    let first = JobView { buffer: zeros(job.window as int), ..first };
                    if span.needs_head() {
                        lemma_multiples_apart(
                            span.low_align as int,
                            span.high_align as int,
                            span.align as int,
                        );
                    } else {
                        lemma_enter_store_inside(first, mem, span.low_align);
                    }
                }
            },
        }
    }
}

/// Whatever a job asks for is a window or a cell inside the widened range of
/// its request: the raw operations touch no byte of the file outside the cells
/// that the request touches.
pub proof fn lemma_asks_inside(job: JobView, mem: MemView, event: EventView)
    requires
        job.wf(),
    ensures
        asks_inside(step_spec(job, mem, event).0, step_spec(job, mem, event).2),
{
    if job.active() {
        lemma_span(job.span);
        lemma_window(job.span, job.cursor);
    }
    match job.phase {
        Phase::Done => {},
        Phase::Start => {
            lemma_begin_inside(job, mem);
        },
        Phase::Head => {
            match event {
                EventView::Read { ret, data } => {
                    if ret == job.align && data.len() == ret {
                        lemma_enter_store_inside(
                            JobView { buffer: data + job.buffer.skip(job.align as int), ..job },
                            mem,
                            job.span.low_align,
                        );
                    }
                },
                _ => {},
            }
        },
        Phase::Tail => {
            match event {
                EventView::Read { ret, data } => {
                    let w = job.span.spec_window_at(job.cursor);
                    if ret == job.align && data.len() == ret {
                        lemma_fill_inside(
                            JobView {
                                buffer: job.buffer.take(w.len - job.align) + data
                                    + job.buffer.skip(w.len as int),
                                ..job
                            },
                            mem,
                        );
                    }
                },
                _ => {},
            }
        },
        Phase::Load => {
            match event {
                EventView::Read { ret, data } => {
                    let w = job.span.spec_window_at(job.cursor);
                    if !(ret < 0 || data.len() != ret || ret < w.real_high - w.offset) {
                        let part = data.subrange(w.real_offset - w.offset, w.real_high - w.offset);
                        lemma_advance_inside(job, scatter(mem, job.iov, part).0);
                    }
                },
                _ => {},
            }
        },
        Phase::Store => {
            match event {
                EventView::Written { ret } => {
                    lemma_advance_inside(job, mem);
                },
                _ => {},
            }
        },
    }
}

impl View for MisalignedRw {
    type V = JobView;

    closed spec fn view(&self) -> JobView {
        JobView {
            opcode: self.opcode,
            offset: self.offset,
            nbytes: self.nbytes,
            align: self.align,
            window: self.window,
            span: self.span,
            cursor: self.cursor,
            iov: self.iov@,
            buffer: self.buffer@,
            phase: self.phase,
            result: self.result,
        }
    }
}

/// A buffer of `len` zero bytes, or `None` where the host has no memory for it.
fn zeroed_buffer(len: usize) -> (buffer: Option<Vec<u8>>)
    ensures
        buffer matches Some(b) ==> b@ == zeros(len as int),
{
    let mut buffer: Vec<u8> = Vec::new();
    if buffer.try_reserve(len).is_err() {
        return None;
    }
    buffer.resize(len, 0);
    proof {
        assert(buffer@ =~= zeros(len as int));
    }
    Some(buffer)
}

impl MisalignedRw {
    /// The job of the request `(opcode, offset, nbytes)` on cells of
    /// `req_align` bytes, with `iovec` as the caller's vector.
    ///
    /// Fails when the length of the bounce buffer cannot be had: the alignment
    /// is zero, or `nbytes + 2 * req_align` does not fit in 64 bits.
    pub fn new(opcode: OpCode, offset: u64, nbytes: u64, req_align: u32, iovec: &[Iovec]) -> (res:
        Result<MisalignedRw, AioError>)
        ensures
            res is Err <==> (req_align == 0 || nbytes + 2 * req_align > u64::MAX),
            res matches Err(e) ==> e == AioError::RoundLength,
            res matches Ok(job) ==> job@.wf() && job@ == JobView::fresh(
                opcode,
                offset,
                nbytes,
                req_align as u64,
                spec_bounce_len(nbytes as int, req_align as int) as u64,
                iovec@,
            ),
    {
        match bounce_len(nbytes, req_align) {
            None => Err(AioError::RoundLength),
            Some(window) => Ok(
                MisalignedRw {
                    opcode,
                    offset,
                    nbytes,
                    align: req_align as u64,
                    window,
                    span: Span { low: 0, high: 0, low_align: 0, high_align: 0, align: 0, window: 0 },
                    cursor: 0,
                    iov: slice_to_vec(iovec),
                    buffer: Vec::new(),
                    phase: Phase::Start,
                    result: 0,
                },
            ),
        }
    }

    /// What the job waits for.
    pub fn phase(&self) -> (phase: Phase)
        ensures
            phase == self@.phase,
    {
        self.phase
    }

    /// The bounce buffer. After a step has answered with a write of `len`
    /// bytes, its first `len` bytes are what is to be written.
    pub fn buffer(&self) -> (buffer: &[u8])
        ensures
            buffer@ == self@.buffer,
    {
        self.buffer.as_slice()
    }

    /// Ends the request with `result`.
    fn finish(&mut self, result: i64) -> (action: RawAction)
        requires
            old(self)@.sized(),
        ensures
            final(self)@.wf(),
            final(self)@ == old(self)@.finish(result),
            action == (RawAction::Done { result }),
    {
        self.phase = Phase::Done;
        self.result = result;
        self.buffer = Vec::new();
        self.iov = Vec::new();
        RawAction::Done { result }
    }

    fn enter_load(&mut self, at: u64) -> (action: RawAction)
        requires
            old(self)@.ready(),
            old(self)@.opcode == OpCode::Preadv,
            old(self)@.span.starts_window(at),
        ensures
            final(self)@.wf(),
            final(self)@ == old(self)@.enter_load(at).0,
            action == old(self)@.enter_load(at).1,
    {
        let w = self.span.window_at(at);
        self.phase = Phase::Load;
        self.cursor = at;
        RawAction::Read { offset: at, len: w.len }
    }

    fn fill(&mut self, mem: &HostMem) -> (action: RawAction)
        requires
            old(self)@.ready(),
            old(self)@.opcode == OpCode::Pwritev,
            old(self)@.span.starts_window(old(self)@.cursor),
        ensures
            final(self)@.wf(),
            final(self)@ == old(self)@.fill(mem@).0,
            action == old(self)@.fill(mem@).1,
    {
        let w = self.span.window_at(self.cursor);
        proof {
            lemma_span(self.span);
            lemma_window(self.span, self.cursor);
        }
        let want: usize = (w.real_high - w.real_offset) as usize;
        let at: usize = (w.real_offset - w.offset) as usize;
        let got = gather_into(mem, self.iov.as_slice(), 0, self.buffer.as_mut_slice(), at, want);
        match got {
            Ok(n) => {
                if n == want {
                    self.phase = Phase::Store;
                    return RawAction::Write { offset: w.offset, len: w.len };
                }
            },
            Err(_) => {},
        }
        self.finish(-1)
    }

    fn enter_store(&mut self, mem: &HostMem, at: u64) -> (action: RawAction)
        requires
            old(self)@.ready(),
            old(self)@.opcode == OpCode::Pwritev,
            old(self)@.span.starts_window(at),
        ensures
            final(self)@.wf(),
            final(self)@ == old(self)@.enter_store(mem@, at).0,
            action == old(self)@.enter_store(mem@, at).1,
    {
        let w = self.span.window_at(at);
        self.cursor = at;
        let head: bool = self.span.low > self.span.low_align;
        let same: bool = self.span.high - self.span.low_align <= self.span.align;
        let tail: bool = !(same && head) && self.span.high_align > self.span.high;
        proof {
            lemma_span(self.span);
            lemma_window(self.span, at);
        }
        if w.real_high == self.span.high && tail {
            self.phase = Phase::Tail;
            RawAction::Read { offset: at + w.len - self.align, len: self.align }
        } else {
            self.fill(mem)
        }
    }

    fn advance(&mut self, mem: &HostMem) -> (action: RawAction)
        requires
            old(self)@.wf(),
            old(self)@.phase is Load || old(self)@.phase is Store,
        ensures
            final(self)@.wf(),
            final(self)@ == old(self)@.advance(mem@).0,
            action == old(self)@.advance(mem@).1,
    {
        let w = self.span.window_at(self.cursor);
        proof {
            lemma_span(self.span);
            lemma_window(self.span, self.cursor);
        }
        if w.len >= self.span.high_align - w.offset {
            return self.finish(0);
        }
        let mut rest: Vec<Iovec> = slice_to_vec(self.iov.as_slice());
        match iov_discard_front_direct(rest.as_mut_slice(), w.real_high - w.real_offset) {
            None => self.finish(-1),
            Some(first) => {
                let mut left: Vec<Iovec> = Vec::new();
                let mut i: usize = first;
                while i < rest.len()
                    invariant
                        first <= i <= rest@.len(),
                        left@ == rest@.subrange(first as int, i as int),
                    decreases rest@.len() - i,
                {
                    left.push(rest[i]);
                    i = i + 1;
                }
                proof {
                    assert(left@ =~= rest@.skip(first as int));
                }
                self.iov = left;
                let next: u64 = self.cursor + w.len;
                if self.opcode == OpCode::Pwritev {
                    self.enter_store(mem, next)
                } else {
                    self.enter_load(next)
                }
            },
        }
    }

    /// Begins a write with the bounce buffer that the host has given, or fails
    /// it for want of one.
    fn begin_write(&mut self, mem: &HostMem, span: Span, buffer: Option<Vec<u8>>) -> (action:
        RawAction)
        requires
            old(self)@.wf(),
            old(self)@.needs_buffer(),
            spec_span(
                old(self)@.offset,
                old(self)@.nbytes,
                old(self)@.align,
                old(self)@.window,
            ) == Some(span),
            buffer matches Some(b) ==> b@ == zeros(old(self)@.window as int),
        ensures
            final(self)@.wf(),
            buffer is Some ==> final(self)@ == old(self)@.begin(mem@).0 && action == old(
                self,
            )@.begin(mem@).1,
            buffer is None ==> final(self)@ == old(self)@.fail().0 && action == old(
                self,
            )@.fail().1,
    {
        proof {
            lemma_span(span);
        }
        match buffer {
            None => self.finish(-1),
            Some(buffer) => {
                self.span = span;
                self.cursor = span.low_align;
                self.buffer = buffer;
                if span.low > span.low_align {
                    self.phase = Phase::Head;
                    RawAction::Read { offset: span.low_align, len: self.align }
                } else {
                    self.enter_store(mem, span.low_align)
                }
            },
        }
    }

    /// Takes the first step of a job. A write asks the host for its bounce
    /// buffer here, and fails where the host has no memory for it.
    fn begin(&mut self, mem: &HostMem) -> (action: RawAction)
        requires
            old(self)@.wf(),
            old(self)@.phase is Start,
        ensures
            final(self)@.wf(),
            (final(self)@ == old(self)@.begin(mem@).0 && action == old(self)@.begin(mem@).1) || (
            old(self)@.needs_buffer() && final(self)@ == old(self)@.fail().0 && action == old(
                self,
            )@.fail().1),
    {
        if self.opcode != OpCode::Preadv && self.opcode != OpCode::Pwritev {
            return self.finish(-1);
        }
        match Span::new(self.offset, self.nbytes, self.align, self.window) {
            None => self.finish(-1),
            Some(span) => {
                proof {
                    lemma_span(span);
                }
                if self.opcode == OpCode::Preadv {
                    self.span = span;
                    self.cursor = span.low_align;
                    self.enter_load(span.low_align)
                } else {
                    let buffer = zeroed_buffer(self.window as usize);
                    self.begin_write(mem, span, buffer)
                }
            },
        }
    }

    fn head_loaded(&mut self, mem: &HostMem, ret: i64, data: &[u8]) -> (action: RawAction)
        requires
            old(self)@.wf(),
            old(self)@.phase is Head,
        ensures
            final(self)@.wf(),
            final(self)@ == old(self)@.head_loaded(mem@, ret, data@).0,
            action == old(self)@.head_loaded(mem@, ret, data@).1,
    {
        proof {
            lemma_span(self.span);
        }
        if ret >= 0 && ret as u64 == self.align && data.len() as u64 == self.align {
            let len: usize = data.len();
            copy_bytes(self.buffer.as_mut_slice(), 0, data, 0, len);
            proof {
                assert(self.buffer@ =~= data@ + old(self)@.buffer.skip(self.align as int));
            }
            self.enter_store(mem, self.span.low_align)
        } else {
            self.finish(-1)
        }
    }

    fn tail_loaded(&mut self, mem: &HostMem, ret: i64, data: &[u8]) -> (action: RawAction)
        requires
            old(self)@.wf(),
            old(self)@.phase is Tail,
        ensures
            final(self)@.wf(),
            final(self)@ == old(self)@.tail_loaded(mem@, ret, data@).0,
            action == old(self)@.tail_loaded(mem@, ret, data@).1,
    {
        let w = self.span.window_at(self.cursor);
        proof {
            lemma_span(self.span);
            lemma_window(self.span, self.cursor);
        }
        if ret >= 0 && ret as u64 == self.align && data.len() as u64 == self.align {
            let len: usize = data.len();
            let at: usize = (w.len - self.align) as usize;
            copy_bytes(self.buffer.as_mut_slice(), at, data, 0, len);
            proof {
                assert(data@.subrange(0, len as int) =~= data@);
            }
            self.fill(mem)
        } else {
            self.finish(-1)
        }
    }

    fn stored(&mut self, mem: &HostMem, ret: i64) -> (action: RawAction)
        requires
            old(self)@.wf(),
            old(self)@.phase is Store,
        ensures
            final(self)@.wf(),
            final(self)@ == old(self)@.stored(mem@, ret).0,
            action == old(self)@.stored(mem@, ret).1,
    {
        let w = self.span.window_at(self.cursor);
        if ret >= 0 && ret as u64 == w.len {
            self.advance(mem)
        } else {
            self.finish(-1)
        }
    }

    fn loaded(&mut self, mem: &mut HostMem, ret: i64, data: &[u8]) -> (action: RawAction)
        requires
            old(self)@.wf(),
            old(self)@.phase is Load,
        ensures
            final(self)@.wf(),
            final(self)@ == old(self)@.loaded(old(mem)@, ret, data@).0,
            final(mem)@ == old(self)@.loaded(old(mem)@, ret, data@).1,
            action == old(self)@.loaded(old(mem)@, ret, data@).2,
    {
        let w = self.span.window_at(self.cursor);
        if ret < 0 || data.len() as u64 != ret as u64 || (ret as u64) < w.real_high - w.offset {
            return self.finish(-1);
        }
        let from: usize = (w.real_offset - w.offset) as usize;
        let to: usize = (w.real_high - w.offset) as usize;
        let part = slice_subrange(data, from, to);
        let stored = iov_from_buf_direct(mem, self.iov.as_slice(), part);
        match stored {
            Ok(n) => {
                if n as u64 == w.real_high - w.real_offset {
                    return self.advance(mem);
                }
            },
            Err(_) => {},
        }
        self.finish(-1)
    }

    /// Takes the outcome of the raw operation that the job has asked for, and
    /// answers with what it asks for next.
    ///
    /// The step is that of `step_spec`, with one exception: a write that is
    /// about to begin, and for whose bounce buffer the host has no memory,
    /// fails.
    pub fn step(&mut self, mem: &mut HostMem, event: RawEvent) -> (action: RawAction)
        requires
            old(self)@.wf(),
        ensures
            final(self)@.wf(),
            ({
                &&& final(self)@ == step_spec(old(self)@, old(mem)@, event@).0
                &&& final(mem)@ == step_spec(old(self)@, old(mem)@, event@).1
                &&& action == step_spec(old(self)@, old(mem)@, event@).2
            }) || ({
                &&& old(self)@.needs_buffer()
                &&& event@ is Begin
                &&& final(self)@ == old(self)@.fail().0
                &&& final(mem)@ == old(mem)@
                &&& action == old(self)@.fail().1
            }),
    {
        match self.phase {
            Phase::Done => RawAction::Done { result: self.result },
            Phase::Start => match event {
                RawEvent::Begin => self.begin(mem),
                _ => self.finish(-1),
            },
            Phase::Head => match event {
                RawEvent::Read { ret, data } => self.head_loaded(mem, ret, data.as_slice()),
                _ => self.finish(-1),
            },
            Phase::Tail => match event {
                RawEvent::Read { ret, data } => self.tail_loaded(mem, ret, data.as_slice()),
                _ => self.finish(-1),
            },
            Phase::Load => match event {
                RawEvent::Read { ret, data } => self.loaded(mem, ret, data.as_slice()),
                _ => self.finish(-1),
            },
            Phase::Store => match event {
                RawEvent::Written { ret } => self.stored(mem, ret),
                _ => self.finish(-1),
            },
        }
    }
}

} // verus!
