//! A job served by a file that does as it is told.
//!
//! The file of this module is a sequence of bytes. It answers a read with the
//! bytes asked for, and takes a write as it comes. Against such a file a
//! misaligned write changes the bytes of the request and no others, and a
//! misaligned read stores the bytes of the request and no others, whatever
//! cells and windows the job goes through.

use crate::bounce::{lemma_span, lemma_window, spec_span, Span};
use crate::iov::discard_front;
use crate::mem::{gather, scatter, MemView};
use crate::misaligned::{step_spec, EventView, JobView, Phase, RawAction};
use crate::num_ops::{lemma_multiples_apart, lemma_next_multiple};
use crate::request::OpCode;
use crate::stream::{
    lemma_discard_before_byte, lemma_gather_discarded, lemma_gather_split, lemma_scatter_split,
};
use vstd::prelude::*;

verus! {

/// The file after `data` has been written at `offset`.
pub open spec fn file_write(file: Seq<u8>, offset: int, data: Seq<u8>) -> Seq<u8> {
    file.take(offset) + data + file.skip(offset + data.len())
}

/// The file after what a job asks for has been done, and the event that tells
/// the job so. A read returns all the bytes asked for; a write writes the
/// start of the bounce buffer in full.
pub open spec fn answer(file: Seq<u8>, job: JobView, action: RawAction) -> (Seq<u8>, EventView) {
    match action {
        RawAction::Read { offset, len } => (
            file,
            EventView::Read { ret: len as i64, data: file.subrange(offset as int, offset + len) },
        ),
        RawAction::Write { offset, len } => (
            file_write(file, offset as int, job.buffer.take(len as int)),
            EventView::Written { ret: len as i64 },
        ),
        RawAction::Done { .. } => (file, EventView::Begin),
    }
}

/// How a request has been served.
#[verifier::ext_equal]
pub struct Served {
    /// The host memory afterwards.
    pub mem: MemView,
    /// The file afterwards.
    pub file: Seq<u8>,
    /// The result of the request; `None` while the job has not ended.
    pub result: Option<i64>,
}

/// A job that has asked for `action` is served by the file, for at most
/// `turns` raw operations.
pub open spec fn serve(job: JobView, mem: MemView, file: Seq<u8>, action: RawAction, turns: nat)
    -> Served
    decreases turns,
{
    match action {
        RawAction::Done { result } => Served { mem, file, result: Some(result) },
        _ => if turns == 0 {
            Served { mem, file, result: None }
        } else {
            let told = answer(file, job, action);
            let next = step_spec(job, mem, told.1);
            serve(next.0, next.1, told.0, next.2, (turns - 1) as nat)
        },
    }
}

/// A job that has not begun is served by the file.
pub open spec fn serve_request(job: JobView, mem: MemView, file: Seq<u8>, turns: nat) -> Served {
    let first = step_spec(job, mem, EventView::Begin);
    serve(first.0, first.1, file, first.2, turns)
}

/// The file `before` with the bytes of a request written from `low` up to the
/// offset `upto`.
pub open spec fn progress(before: Seq<u8>, low: int, bytes: Seq<u8>, upto: int) -> Seq<u8> {
    before.take(low) + bytes.take(upto - low) + before.skip(upto)
}

/// Raw operations that are enough to serve a write from the window at `at` on.
pub open spec fn turns_from(span: Span, at: int) -> int {
    2 * (span.high_align - at) + 2
}

/// Writing a window moves the progress of a request to the end of what the
/// window holds of it, if the window holds the bytes of the request where the
/// request covers it, and the bytes of the file as it was elsewhere.
proof fn lemma_progress(
    before: Seq<u8>,
    file: Seq<u8>,
    bytes: Seq<u8>,
    low: int,
    at: int,
    real_offset: int,
    real_high: int,
    win: Seq<u8>,
)
    requires
        0 <= low <= real_offset <= real_high <= at + win.len() <= before.len(),
        0 <= at <= real_offset,
        real_offset == (if at > low {
            at
        } else {
            low
        }),
        real_high - low <= bytes.len(),
        file == progress(before, low, bytes, real_offset),
        forall|j: int|
            0 <= j < win.len() ==> #[trigger] win[j] == (if real_offset <= at + j < real_high {
                bytes[at + j - low]
            } else {
                before[at + j]
            }),
    ensures
        file_write(file, at, win) == progress(before, low, bytes, real_high),
{
    let after = file_write(file, at, win);
    let goal = progress(before, low, bytes, real_high);
    assert(after.len() == goal.len());
    assert forall|x: int| 0 <= x < after.len() implies after[x] == goal[x] by {
        if x < at {
            assert(after[x] == file[x]);
        } else if x < at + win.len() {
            assert(after[x] == win[x - at]);
        } else {
            assert(after[x] == file[x]);
        }
    }
    assert(after =~= goal);
}

/// What a write has in its bounce buffer before it fills the window at `at`:
/// the buffer as it stood, with the last cell of the window loaded from the
/// file where the job asks for it.
pub open spec fn before_fill(job: JobView, file: Seq<u8>, at: u64) -> Seq<u8> {
    let w = job.span.spec_window_at(at);
    if w.real_high == job.span.high && job.span.needs_tail() {
        job.buffer.take(w.len - job.align) + file.subrange(at + w.len - job.align, at + w.len)
            + job.buffer.skip(w.len as int)
    } else {
        job.buffer
    }
}

/// The job that stores the window at `at`, once the window is filled with the
/// first bytes that the vector yields.
pub open spec fn storing(job: JobView, mem: MemView, file: Seq<u8>, at: u64) -> JobView {
    let w = job.span.spec_window_at(at);
    let want = w.real_high - w.real_offset;
    let held = before_fill(job, file, at);
    let from = w.real_offset - w.offset;
    JobView {
        phase: Phase::Store,
        cursor: at,
        buffer: held.take(from) + gather(mem, job.iov, 0, want).0 + held.skip(from + want),
        ..job
    }
}

/// A write that turns to a window comes to store it: it loads the last cell
/// where it has to, fills the window, and asks for it to be written.
#[verifier::rlimit(40)]
proof fn lemma_comes_to_store(job: JobView, mem: MemView, file: Seq<u8>, at: u64, turns: nat) -> (left:
    nat)
    requires
        job.ready(),
        job.opcode == OpCode::Pwritev,
        job.span.starts_window(at),
        job.span.high_align <= file.len(),
        turns >= 1,
        gather(mem, job.iov, 0, job.span.spec_window_at(at).real_high - job.span.spec_window_at(
            at,
        ).real_offset).1,
        gather(mem, job.iov, 0, job.span.spec_window_at(at).real_high - job.span.spec_window_at(
            at,
        ).real_offset).0.len() == job.span.spec_window_at(at).real_high - job.span.spec_window_at(
            at,
        ).real_offset,
    ensures
        turns - 1 <= left <= turns,
        serve(job.enter_store(mem, at).0, mem, file, job.enter_store(mem, at).1, turns) == serve(
            storing(job, mem, file, at),
            mem,
            file,
            RawAction::Write { offset: at, len: job.span.spec_window_at(at).len },
            left,
        ),
{
    let span = job.span;
    let w = span.spec_window_at(at);
    lemma_span(span);
    lemma_window(span, at);
    let entered = job.enter_store(mem, at);
    let write = RawAction::Write { offset: at, len: w.len };
    if w.real_high == span.high && span.needs_tail() {
        let waiting = entered.0;
        let told = answer(file, waiting, entered.1);
        let next = step_spec(waiting, mem, told.1);
        assert(told.0 == file);
        assert(waiting.phase is Tail);
        assert(next.0 =~= storing(job, mem, file, at));
        assert(next.1 == mem);
        assert(next.2 == write);
        assert(serve(waiting, mem, file, entered.1, turns) == serve(
            next.0,
            next.1,
            told.0,
            next.2,
            (turns - 1) as nat,
        ));
        assert(serve(entered.0, mem, file, entered.1, turns) == serve(
            storing(job, mem, file, at),
            mem,
            file,
            write,
            (turns - 1) as nat,
        ));
        (turns - 1) as nat
    } else {
        assert(entered.0 =~= storing(job, mem, file, at));
        assert(entered.1 == write);
        turns
    }
}

/// The window that a write stores holds the bytes of the request where the
/// request covers it, and the bytes of the file as it was elsewhere.
#[verifier::rlimit(40)]
proof fn lemma_window_content(
    job: JobView,
    mem: MemView,
    before: Seq<u8>,
    file: Seq<u8>,
    bytes: Seq<u8>,
    at: u64,
)
    requires
        job.ready(),
        job.opcode == OpCode::Pwritev,
        job.span.starts_window(at),
        job.span.high_align <= before.len(),
        file.len() == before.len(),
        bytes.len() == job.nbytes,
        file == progress(
            before,
            job.span.low as int,
            bytes,
            job.span.spec_window_at(at).real_offset as int,
        ),
        gather(mem, job.iov, 0, job.span.spec_window_at(at).real_high - job.span.spec_window_at(
            at,
        ).real_offset) == (
            bytes.subrange(
                job.span.spec_window_at(at).real_offset - job.span.low,
                job.span.spec_window_at(at).real_high - job.span.low,
            ),
            true,
        ),
        at == job.span.low_align && job.span.needs_head() ==> job.buffer.take(job.align as int)
            == before.subrange(job.span.low_align as int, job.span.low_align + job.align),
    ensures
        ({
            let w = job.span.spec_window_at(at);
            let win = storing(job, mem, file, at).buffer.take(w.len as int);
            &&& win.len() == w.len
            &&& forall|j: int|
                0 <= j < w.len ==> #[trigger] win[j] == (if w.real_offset <= at + j < w.real_high {
                    bytes[at + j - job.span.low]
                } else {
                    before[at + j]
                })
        }),
{
    let span = job.span;
    let w = span.spec_window_at(at);
    let a = job.align as int;
    let n = w.len as int;
    lemma_span(span);
    lemma_window(span, at);
    let held = before_fill(job, file, at);
    let from = w.real_offset - w.offset;
    let want = w.real_high - w.real_offset;
    let got = gather(mem, job.iov, 0, want).0;
    let full = storing(job, mem, file, at).buffer;
    let win = full.take(n);
    let tail = w.real_high == span.high && span.needs_tail();
    assert(held.len() == job.buffer.len());
    assert(full.len() == job.buffer.len());
    if tail {
        // The window ends the widened range, and holds two cells or more
        // where the head was loaded as well.
        assert(at + n == span.high_align);
        if span.needs_head() && at == span.low_align {
            lemma_next_multiple(span.low_align as int, a);
            lemma_multiples_apart(span.low_align + a, span.high_align as int, a);
        }
    }
    assert forall|j: int| 0 <= j < n implies #[trigger] win[j] == (if w.real_offset <= at + j
        < w.real_high {
        bytes[at + j - span.low]
    } else {
        before[at + j]
    }) by {
        assert(win[j] == full[j]);
        if from <= j < from + want {
            assert(full[j] == got[j - from]);
        } else if j < from {
            // Before the request: the first cell, as the head load left it.
            assert(at == span.low_align && span.needs_head());
            assert(full[j] == held[j]);
            assert(j < a);
            if tail {
                assert(j < n - a);
            }
            assert(held[j] == job.buffer[j]);
            assert(job.buffer.take(a)[j] == before.subrange(span.low_align as int, span.low_align + a)[j]);
        } else {
            // Behind the request: the last cell.
            assert(full[j] == held[j]);
            assert(w.real_high == span.high);
            assert(at + n == span.high_align);
            if tail {
                assert(j >= n - a);
                assert(held[j] == file.subrange(at + n - a, at + n)[j - (n - a)]);
                assert(file[at + j] == before[at + j]);
            } else {
                assert(span.same_section() && span.needs_head());
                assert(at == span.low_align) by {
                    if at > span.low_align {
                        lemma_multiples_apart(span.low_align as int, at as int, a);
                    }
                }
                assert(n == a) by {
                    lemma_next_multiple(span.low_align as int, a);
                    lemma_multiples_apart(span.low_align as int, span.high_align as int, a);
                    if span.high_align > span.low_align + a {
                        lemma_multiples_apart(span.low_align + a, span.high_align as int, a);
                    }
                }
                assert(held[j] == job.buffer[j]);
                assert(job.buffer.take(a)[j] == before.subrange(span.low_align as int, span.low_align + a)[j]);
            }
        }
    }
}

/// The job that turns to the next window, once the window at `at` is stored
/// and the part of the vector that it used is dropped.
pub open spec fn moving_on(job: JobView, mem: MemView, file: Seq<u8>, at: u64) -> JobView {
    let w = job.span.spec_window_at(at);
    JobView {
        iov: discard_front(job.iov, w.real_high - w.real_offset)->0,
        ..storing(job, mem, file, at)
    }
}

/// A write that has stored a window in full ends with success where the window
/// was the last one, and turns to the next window else.
proof fn lemma_stored(job: JobView, mem: MemView, file: Seq<u8>, at: u64)
    requires
        job.ready(),
        job.opcode == OpCode::Pwritev,
        job.span.starts_window(at),
        job.span.high_align <= file.len(),
        gather(mem, job.iov, 0, job.span.spec_window_at(at).real_high - job.span.spec_window_at(
            at,
        ).real_offset).0.len() == job.span.spec_window_at(at).real_high - job.span.spec_window_at(
            at,
        ).real_offset,
        !job.span.ends_at(job.span.spec_window_at(at)) ==> discard_front(
            job.iov,
            job.span.spec_window_at(at).real_high - job.span.spec_window_at(at).real_offset,
        ) is Some,
    ensures
        ({
            let w = job.span.spec_window_at(at);
            let next = step_spec(
                storing(job, mem, file, at),
                mem,
                EventView::Written { ret: w.len as i64 },
            );
            let on = moving_on(job, mem, file, at);
            &&& next.1 == mem
            &&& job.span.ends_at(w) ==> next.2 == RawAction::Done { result: 0i64 }
            &&& !job.span.ends_at(w) ==> {
                &&& next.0 == on.enter_store(mem, (at + w.len) as u64).0
                &&& next.2 == on.enter_store(mem, (at + w.len) as u64).1
                &&& on.ready()
                &&& on.opcode == OpCode::Pwritev
                &&& on.span == job.span
                &&& on.nbytes == job.nbytes
            }
        }),
{
    let span = job.span;
    lemma_span(span);
    lemma_window(span, at);
    let store = storing(job, mem, file, at);
    assert(before_fill(job, file, at).len() == job.buffer.len());
    assert(store.buffer.len() == job.buffer.len());
}

/// The vector of a write yields the bytes of the window at hand first. Where
/// the window is not the last one, the vector can be cut behind these bytes,
/// and what is left of it yields the bytes still owed.
proof fn lemma_vector_of_window(job: JobView, mem: MemView, bytes: Seq<u8>, at: u64)
    requires
        job.ready(),
        job.span.starts_window(at),
        bytes.len() == job.nbytes,
        gather(
            mem,
            job.iov,
            0,
            job.span.high - job.span.spec_window_at(at).real_offset,
        ) == (bytes.skip(job.span.spec_window_at(at).real_offset - job.span.low), true),
    ensures
        ({
            let w = job.span.spec_window_at(at);
            let want = w.real_high - w.real_offset;
            &&& gather(mem, job.iov, 0, want) == (
                bytes.subrange(w.real_offset - job.span.low, w.real_high - job.span.low),
                true,
            )
            &&& !job.span.ends_at(w) ==> {
                &&& discard_front(job.iov, want) is Some
                &&& gather(mem, discard_front(job.iov, want)->0, 0, job.span.high - w.real_high)
                    == (bytes.skip(w.real_high - job.span.low), true)
            }
        }),
{
    let span = job.span;
    let w = span.spec_window_at(at);
    let done = w.real_offset - span.low;
    let want = w.real_high - w.real_offset;
    let owed = span.high - w.real_offset;
    lemma_span(span);
    lemma_window(span, at);
    let left_bytes = bytes.skip(done);
    lemma_gather_split(mem, job.iov, 0, want, owed - want);
    assert(left_bytes.take(want) =~= bytes.subrange(done, done + want));
    if !span.ends_at(w) {
        lemma_discard_before_byte(mem, job.iov, want, owed - want);
        lemma_gather_discarded(mem, job.iov, want, owed - want);
        assert(left_bytes.skip(want) =~= bytes.skip(w.real_high - span.low));
    }
}

/// The window that a write stores brings the file to hold the bytes of the
/// request up to the end of the window.
proof fn lemma_window_written(
    job: JobView,
    mem: MemView,
    before: Seq<u8>,
    file: Seq<u8>,
    bytes: Seq<u8>,
    at: u64,
)
    requires
        job.ready(),
        job.opcode == OpCode::Pwritev,
        job.span.starts_window(at),
        job.span.high_align <= before.len(),
        file.len() == before.len(),
        bytes.len() == job.nbytes,
        file == progress(
            before,
            job.span.low as int,
            bytes,
            job.span.spec_window_at(at).real_offset as int,
        ),
        gather(mem, job.iov, 0, job.span.spec_window_at(at).real_high - job.span.spec_window_at(
            at,
        ).real_offset) == (
            bytes.subrange(
                job.span.spec_window_at(at).real_offset - job.span.low,
                job.span.spec_window_at(at).real_high - job.span.low,
            ),
            true,
        ),
        at == job.span.low_align && job.span.needs_head() ==> job.buffer.take(job.align as int)
            == before.subrange(job.span.low_align as int, job.span.low_align + job.align),
    ensures
        answer(
            file,
            storing(job, mem, file, at),
            RawAction::Write { offset: at, len: job.span.spec_window_at(at).len },
        ) == (
            progress(
                before,
                job.span.low as int,
                bytes,
                job.span.spec_window_at(at).real_high as int,
            ),
            EventView::Written { ret: job.span.spec_window_at(at).len as i64 },
        ),
        progress(
            before,
            job.span.low as int,
            bytes,
            job.span.spec_window_at(at).real_high as int,
        ).len() == before.len(),
        job.span.ends_at(job.span.spec_window_at(at)) ==> progress(
            before,
            job.span.low as int,
            bytes,
            job.span.spec_window_at(at).real_high as int,
        ) == file_write(before, job.span.low as int, bytes),
{
    let span = job.span;
    let w = span.spec_window_at(at);
    let low = span.low as int;
    lemma_span(span);
    lemma_window(span, at);
    lemma_window_content(job, mem, before, file, bytes, at);
    let win = storing(job, mem, file, at).buffer.take(w.len as int);
    lemma_progress(before, file, bytes, low, at as int, w.real_offset as int, w.real_high as int, win);
    if span.ends_at(w) {
        assert(bytes.take(span.high - low) =~= bytes);
        assert(progress(before, low, bytes, w.real_high as int) =~= file_write(before, low, bytes));
    }
}

/// One window of a write that is served by the file: the file comes to hold
/// the bytes of the request up to the end of the window. With the last window
/// the request ends with success; else the job turns to the next window with
/// what is left of the vector, which yields the bytes still owed.
#[verifier::rlimit(40)]
proof fn lemma_store_window(
    job: JobView,
    mem: MemView,
    before: Seq<u8>,
    file: Seq<u8>,
    bytes: Seq<u8>,
    at: u64,
    turns: nat,
) -> (left: nat)
    requires
        job.ready(),
        job.opcode == OpCode::Pwritev,
        job.span.starts_window(at),
        job.span.high_align <= before.len(),
        file.len() == before.len(),
        bytes.len() == job.nbytes,
        file == progress(
            before,
            job.span.low as int,
            bytes,
            job.span.spec_window_at(at).real_offset as int,
        ),
        gather(
            mem,
            job.iov,
            0,
            job.span.high - job.span.spec_window_at(at).real_offset,
        ) == (bytes.skip(job.span.spec_window_at(at).real_offset - job.span.low), true),
        at == job.span.low_align && job.span.needs_head() ==> job.buffer.take(job.align as int)
            == before.subrange(job.span.low_align as int, job.span.low_align + job.align),
        turns >= 2,
    ensures
        turns - 2 <= left,
        ({
            let w = job.span.spec_window_at(at);
            let entered = job.enter_store(mem, at);
            let on = moving_on(job, mem, file, at);
            let to = (at + w.len) as u64;
            let written = progress(before, job.span.low as int, bytes, w.real_high as int);
            &&& job.span.ends_at(w) ==> serve(entered.0, mem, file, entered.1, turns) == (Served {
                mem,
                file: file_write(before, job.span.low as int, bytes),
                result: Some(0i64),
            })
            &&& !job.span.ends_at(w) ==> {
                &&& on.ready()
                &&& on.opcode == OpCode::Pwritev
                &&& on.span == job.span
                &&& on.nbytes == job.nbytes
                &&& written.len() == before.len()
                &&& gather(mem, on.iov, 0, job.span.high - to) == (
                    bytes.skip(to - job.span.low),
                    true,
                )
                &&& serve(entered.0, mem, file, entered.1, turns) == serve(
                    on.enter_store(mem, to).0,
                    mem,
                    written,
                    on.enter_store(mem, to).1,
                    left,
                )
            }
        }),
{
    let span = job.span;
    let w = span.spec_window_at(at);
    lemma_span(span);
    lemma_window(span, at);
    lemma_vector_of_window(job, mem, bytes, at);
    let left = lemma_comes_to_store(job, mem, file, at, turns);
    let entered = job.enter_store(mem, at);
    let store = storing(job, mem, file, at);
    let write = RawAction::Write { offset: at, len: w.len };
    lemma_window_written(job, mem, before, file, bytes, at);
    lemma_stored(job, mem, file, at);
    let written = progress(before, span.low as int, bytes, w.real_high as int);
    let told = answer(file, store, write);
    let next = step_spec(store, mem, told.1);
    assert(serve(store, mem, file, write, left) == serve(
        next.0,
        next.1,
        told.0,
        next.2,
        (left - 1) as nat,
    ));
    if !span.ends_at(w) {
        let on = moving_on(job, mem, file, at);
        let to = (at + w.len) as u64;
        assert(serve(entered.0, mem, file, entered.1, turns) == serve(
            on.enter_store(mem, to).0,
            mem,
            written,
            on.enter_store(mem, to).1,
            (left - 1) as nat,
        ));
    }
    (left - 1) as nat
}

/// From any window on, a write that is served by the file brings the request
/// to its end: the result is zero, the host memory is as it was, and the file
/// holds the bytes of the request where the request covers it and is as it was
/// elsewhere.
#[verifier::rlimit(40)]
proof fn lemma_store_from(
    job: JobView,
    mem: MemView,
    before: Seq<u8>,
    file: Seq<u8>,
    bytes: Seq<u8>,
    at: u64,
    turns: nat,
)
    requires
        job.ready(),
        job.opcode == OpCode::Pwritev,
        job.span.starts_window(at),
        job.span.high_align <= before.len(),
        file.len() == before.len(),
        bytes.len() == job.nbytes,
        file == progress(
            before,
            job.span.low as int,
            bytes,
            job.span.spec_window_at(at).real_offset as int,
        ),
        gather(
            mem,
            job.iov,
            0,
            job.span.high - job.span.spec_window_at(at).real_offset,
        ) == (bytes.skip(job.span.spec_window_at(at).real_offset - job.span.low), true),
        at == job.span.low_align && job.span.needs_head() ==> job.buffer.take(job.align as int)
            == before.subrange(job.span.low_align as int, job.span.low_align + job.align),
        turns >= turns_from(job.span, at as int),
    ensures
        serve(job.enter_store(mem, at).0, mem, file, job.enter_store(mem, at).1, turns) == (Served {
            mem,
            file: file_write(before, job.span.low as int, bytes),
            result: Some(0i64),
        }),
    decreases job.span.high_align - at,
{
    let span = job.span;
    let w = span.spec_window_at(at);
    lemma_span(span);
    lemma_window(span, at);
    let left = lemma_store_window(job, mem, before, file, bytes, at, turns);
    if !span.ends_at(w) {
        let on = moving_on(job, mem, file, at);
        let to = (at + w.len) as u64;
        let written = progress(before, span.low as int, bytes, w.real_high as int);
        lemma_window(span, to);
        lemma_store_from(on, mem, before, written, bytes, to, left);
    }
}

/// The job of a write once it has begun: it has its span and its bounce
/// buffer, and stands at the first window.
pub open spec fn begun(job: JobView) -> JobView {
    let span = spec_span(job.offset, job.nbytes, job.align, job.window)->0;
    JobView {
        buffer: crate::misaligned::zeros(job.window as int),
        span,
        cursor: span.low_align,
        ..job
    }
}

/// The job of a write once the first cell is loaded from the file.
pub open spec fn head_in(job: JobView, file: Seq<u8>) -> JobView {
    let span = begun(job).span;
    JobView {
        phase: Phase::Head,
        buffer: file.subrange(span.low_align as int, span.low_align + job.align) + begun(
            job,
        ).buffer.skip(job.align as int),
        ..begun(job)
    }
}

/// A write begins by turning to the first window, after it has loaded the
/// first cell where the request starts inside it.
#[verifier::rlimit(40)]
proof fn lemma_write_begins(job: JobView, mem: MemView, file: Seq<u8>, turns: nat) -> (left: nat)
    requires
        job.sized(),
        job.phase is Start,
        job.opcode == OpCode::Pwritev,
        spec_span(job.offset, job.nbytes, job.align, job.window) is Some,
        spec_span(job.offset, job.nbytes, job.align, job.window)->0.high_align <= file.len(),
        turns >= 1,
    ensures
        turns - 1 <= left,
        ({
            let span = begun(job).span;
            let first = if span.needs_head() {
                head_in(job, file)
            } else {
                begun(job)
            };
            &&& first.ready()
            &&& first.opcode == OpCode::Pwritev
            &&& first.nbytes == job.nbytes
            &&& first.iov == job.iov
            &&& first.span == span
            &&& span.needs_head() ==> first.buffer.take(job.align as int) == file.subrange(
                span.low_align as int,
                span.low_align + job.align,
            )
            &&& serve_request(job, mem, file, turns) == serve(
                first.enter_store(mem, span.low_align).0,
                mem,
                file,
                first.enter_store(mem, span.low_align).1,
                left,
            )
        }),
{
    let span = spec_span(job.offset, job.nbytes, job.align, job.window)->0;
    let a = job.align as int;
    lemma_span(span);
    let first = step_spec(job, mem, EventView::Begin);
    let fresh = begun(job);
    assert(fresh.buffer.len() == job.window);
    if span.needs_head() {
        let waiting = JobView { phase: Phase::Head, ..fresh };
        let read = RawAction::Read { offset: span.low_align, len: job.align };
        assert(first.0 == waiting && first.2 == read && first.1 == mem);
        let told = answer(file, waiting, read);
        let cell = file.subrange(span.low_align as int, span.low_align + a);
        assert(span.low_align + a <= span.high_align) by {
            lemma_multiples_apart(span.low_align as int, span.high_align as int, a);
        }
        assert(cell.len() == a);
        let next = step_spec(waiting, mem, told.1);
        let loaded = head_in(job, file);
        assert(loaded =~= JobView { buffer: cell + waiting.buffer.skip(a), ..waiting });
        assert(next.0 == loaded.enter_store(mem, span.low_align).0);
        assert(next.2 == loaded.enter_store(mem, span.low_align).1);
        assert(next.1 == mem);
        assert(serve(first.0, first.1, file, first.2, turns) == serve(
            next.0,
            next.1,
            told.0,
            next.2,
            (turns - 1) as nat,
        ));
        assert(loaded.buffer.take(a) =~= cell);
        assert(loaded.buffer.len() == job.window);
        assert(told.0 == file);
        assert(loaded.ready());
        assert(serve_request(job, mem, file, turns) == serve(
            loaded.enter_store(mem, span.low_align).0,
            mem,
            file,
            loaded.enter_store(mem, span.low_align).1,
            (turns - 1) as nat,
        ));
        (turns - 1) as nat
    } else {
        assert(fresh.ready());
        assert(first.0 == fresh.enter_store(mem, span.low_align).0);
        assert(first.2 == fresh.enter_store(mem, span.low_align).1);
        assert(serve_request(job, mem, file, turns) == serve(
            fresh.enter_store(mem, span.low_align).0,
            mem,
            file,
            fresh.enter_store(mem, span.low_align).1,
            turns,
        ));
        turns
    }
}

/// A misaligned write that a file serves as it is told ends with success,
/// leaves the host memory as it was, and changes the file in the bytes of the
/// request only: these hold what the vector yields.
///
/// This holds for a request that can be widened, on a file that holds the
/// widened range, with a vector that yields as many bytes as the request has.
pub proof fn lemma_write_served(job: JobView, mem: MemView, file: Seq<u8>, turns: nat)
    requires
        job.sized(),
        job.phase is Start,
        job.opcode == OpCode::Pwritev,
        spec_span(job.offset, job.nbytes, job.align, job.window) is Some,
        spec_span(job.offset, job.nbytes, job.align, job.window)->0.high_align <= file.len(),
        gather(mem, job.iov, 0, job.nbytes as int).1,
        gather(mem, job.iov, 0, job.nbytes as int).0.len() == job.nbytes,
        turns >= turns_from(
            spec_span(job.offset, job.nbytes, job.align, job.window)->0,
            spec_span(job.offset, job.nbytes, job.align, job.window)->0.low_align as int,
        ) + 1,
    ensures
        serve_request(job, mem, file, turns) == (Served {
            mem,
            file: file_write(file, job.offset as int, gather(mem, job.iov, 0, job.nbytes as int).0),
            result: Some(0i64),
        }),
{
    let span = begun(job).span;
    let bytes = gather(mem, job.iov, 0, job.nbytes as int).0;
    lemma_span(span);
    lemma_window(span, span.low_align);
    let left = lemma_write_begins(job, mem, file, turns);
    let first = if span.needs_head() {
        head_in(job, file)
    } else {
        begun(job)
    };
    assert(bytes.skip(0) =~= bytes);
    assert(file =~= progress(file, span.low as int, bytes, span.low as int)) by {
        assert(bytes.take(0) =~= Seq::<u8>::empty());
    }
    lemma_store_from(first, mem, file, file, bytes, span.low_align, left);
}

/// The job that turns to the next window of a read, once the part of the
/// vector that the window at `at` used is dropped.
pub open spec fn reading_on(job: JobView, at: u64) -> JobView {
    let w = job.span.spec_window_at(at);
    JobView {
        phase: Phase::Load,
        cursor: at,
        iov: discard_front(job.iov, w.real_high - w.real_offset)->0,
        ..job
    }
}

/// One window of a read that is served by the file: the part of the window
/// that the request covers is stored through the vector. With the last window
/// the request ends with success; else the job turns to the next window with
/// what is left of the vector.
#[verifier::rlimit(40)]
proof fn lemma_load_window(job: JobView, mem: MemView, file: Seq<u8>, at: u64, turns: nat)
    requires
        job.ready(),
        job.opcode == OpCode::Preadv,
        job.span.starts_window(at),
        job.span.high_align <= file.len(),
        scatter(
            mem,
            job.iov,
            file.subrange(
                job.span.spec_window_at(at).real_offset as int,
                job.span.spec_window_at(at).real_high as int,
            ),
        ).1 == Some(
            job.span.spec_window_at(at).real_high - job.span.spec_window_at(at).real_offset,
        ),
        !job.span.ends_at(job.span.spec_window_at(at)) ==> discard_front(
            job.iov,
            job.span.spec_window_at(at).real_high - job.span.spec_window_at(at).real_offset,
        ) is Some,
        turns >= 1,
    ensures
        ({
            let w = job.span.spec_window_at(at);
            let entered = job.enter_load(at);
            let part = file.subrange(w.real_offset as int, w.real_high as int);
            let stored = scatter(mem, job.iov, part).0;
            let on = reading_on(job, at);
            let to = (at + w.len) as u64;
            &&& job.span.ends_at(w) ==> serve(entered.0, mem, file, entered.1, turns) == (Served {
                mem: stored,
                file,
                result: Some(0i64),
            })
            &&& !job.span.ends_at(w) ==> {
                &&& on.ready()
                &&& on.opcode == OpCode::Preadv
                &&& on.span == job.span
                &&& serve(entered.0, mem, file, entered.1, turns) == serve(
                    on.enter_load(to).0,
                    stored,
                    file,
                    on.enter_load(to).1,
                    (turns - 1) as nat,
                )
            }
        }),
{
    let span = job.span;
    let w = span.spec_window_at(at);
    lemma_span(span);
    lemma_window(span, at);
    let entered = job.enter_load(at);
    let data = file.subrange(at as int, at + w.len);
    let told = answer(file, entered.0, entered.1);
    assert(told.0 == file);
    assert(told.1 == EventView::Read { ret: w.len as i64, data });
    let part = file.subrange(w.real_offset as int, w.real_high as int);
    assert(data.subrange(w.real_offset - w.offset, w.real_high - w.offset) =~= part);
    let next = step_spec(entered.0, mem, told.1);
    assert(serve(entered.0, mem, file, entered.1, turns) == serve(
        next.0,
        next.1,
        told.0,
        next.2,
        (turns - 1) as nat,
    ));
    let stored = scatter(mem, job.iov, part).0;
    assert(next.1 == stored);
    if span.ends_at(w) {
        assert(next.2 == RawAction::Done { result: 0i64 });
    } else {
        let on = reading_on(job, at);
        let to = (at + w.len) as u64;
        assert(next.0 == on.enter_load(to).0);
        assert(next.2 == on.enter_load(to).1);
    }
}

/// From any window on, a read that is served by the file brings the request to
/// its end: the result is zero, the file is as it was, and the host memory is
/// what storing the rest of the request through the rest of the vector makes
/// of it.
proof fn lemma_load_from(
    job: JobView,
    mem: MemView,
    file: Seq<u8>,
    target: MemView,
    at: u64,
    turns: nat,
)
    requires
        job.ready(),
        job.opcode == OpCode::Preadv,
        job.span.starts_window(at),
        job.span.high_align <= file.len(),
        scatter(
            mem,
            job.iov,
            file.subrange(job.span.spec_window_at(at).real_offset as int, job.span.high as int),
        ) == (target, Some(job.span.high - job.span.spec_window_at(at).real_offset)),
        turns >= job.span.high_align - at + 1,
    ensures
        serve(job.enter_load(at).0, mem, file, job.enter_load(at).1, turns) == (Served {
            mem: target,
            file,
            result: Some(0i64),
        }),
    decreases job.span.high_align - at,
{
    let span = job.span;
    let w = span.spec_window_at(at);
    lemma_span(span);
    lemma_window(span, at);
    let part = file.subrange(w.real_offset as int, w.real_high as int);
    let later = file.subrange(w.real_high as int, span.high as int);
    assert(part + later =~= file.subrange(w.real_offset as int, span.high as int));
    lemma_scatter_split(mem, job.iov, part, later);
    lemma_load_window(job, mem, file, at, turns);
    if !span.ends_at(w) {
        let on = reading_on(job, at);
        let to = (at + w.len) as u64;
        let stored = scatter(mem, job.iov, part).0;
        lemma_window(span, to);
        assert(span.spec_window_at(to).real_offset == w.real_high);
        lemma_load_from(on, stored, file, target, to, (turns - 1) as nat);
    }
}

/// A misaligned read that a file serves as it is told ends with success,
/// leaves the file as it was, and stores the bytes of the request, and no
/// others, through the vector.
///
/// This holds for a request that can be widened, on a file that holds the
/// widened range, with a vector that has room in the host memory for the bytes
/// of the request.
pub proof fn lemma_read_served(job: JobView, mem: MemView, file: Seq<u8>, turns: nat)
    requires
        job.sized(),
        job.phase is Start,
        job.opcode == OpCode::Preadv,
        spec_span(job.offset, job.nbytes, job.align, job.window) is Some,
        spec_span(job.offset, job.nbytes, job.align, job.window)->0.high_align <= file.len(),
        scatter(
            mem,
            job.iov,
            file.subrange(job.offset as int, job.offset + job.nbytes),
        ).1 == Some(job.nbytes as int),
        turns >= spec_span(job.offset, job.nbytes, job.align, job.window)->0.high_align
            - spec_span(job.offset, job.nbytes, job.align, job.window)->0.low_align + 1,
    ensures
        serve_request(job, mem, file, turns) == (Served {
            mem: scatter(
                mem,
                job.iov,
                file.subrange(job.offset as int, job.offset + job.nbytes),
            ).0,
            file,
            result: Some(0i64),
        }),
{
    let span = spec_span(job.offset, job.nbytes, job.align, job.window)->0;
    lemma_span(span);
    lemma_window(span, span.low_align);
    let first = step_spec(job, mem, EventView::Begin);
    let fresh = JobView { span, cursor: span.low_align, ..job };
    assert(first.0 == fresh.enter_load(span.low_align).0);
    assert(first.2 == fresh.enter_load(span.low_align).1);
    assert(first.1 == mem);
    let target = scatter(mem, job.iov, file.subrange(job.offset as int, job.offset + job.nbytes)).0;
    lemma_load_from(fresh, mem, file, target, span.low_align, turns);
}

/// A misaligned read after a misaligned write stores what the file holds after
/// the write: the bytes that the vector of the write yielded where the two
/// requests overlap, and the bytes of the file as it was elsewhere. A read of
/// the range of the write stores the bytes written, and nothing else.
///
/// Both requests are served by a file that does as it is told, which holds
/// both widened ranges; the vector of the write yields as many bytes as the
/// write has, and the vector of the read has room in its host memory.
pub proof fn lemma_read_after_write(
    write: JobView,
    from: MemView,
    read: JobView,
    into: MemView,
    file: Seq<u8>,
    turns: nat,
)
    requires
        write.sized(),
        write.phase is Start,
        write.opcode == OpCode::Pwritev,
        read.sized(),
        read.phase is Start,
        read.opcode == OpCode::Preadv,
        spec_span(write.offset, write.nbytes, write.align, write.window) is Some,
        spec_span(write.offset, write.nbytes, write.align, write.window)->0.high_align
            <= file.len(),
        spec_span(read.offset, read.nbytes, read.align, read.window) is Some,
        spec_span(read.offset, read.nbytes, read.align, read.window)->0.high_align <= file.len(),
        gather(from, write.iov, 0, write.nbytes as int).1,
        gather(from, write.iov, 0, write.nbytes as int).0.len() == write.nbytes,
        scatter(
            into,
            read.iov,
            file_write(
                file,
                write.offset as int,
                gather(from, write.iov, 0, write.nbytes as int).0,
            ).subrange(read.offset as int, read.offset + read.nbytes),
        ).1 == Some(read.nbytes as int),
        turns >= turns_from(
            spec_span(write.offset, write.nbytes, write.align, write.window)->0,
            spec_span(write.offset, write.nbytes, write.align, write.window)->0.low_align as int,
        ) + 1,
        turns >= spec_span(read.offset, read.nbytes, read.align, read.window)->0.high_align
            - spec_span(read.offset, read.nbytes, read.align, read.window)->0.low_align + 1,
    ensures
        serve_request(write, from, file, turns).file == file_write(
            file,
            write.offset as int,
            gather(from, write.iov, 0, write.nbytes as int).0,
        ),
        serve_request(read, into, serve_request(write, from, file, turns).file, turns) == (Served {
            mem: scatter(
                into,
                read.iov,
                serve_request(write, from, file, turns).file.subrange(
                    read.offset as int,
                    read.offset + read.nbytes,
                ),
            ).0,
            file: serve_request(write, from, file, turns).file,
            result: Some(0i64),
        }),
        read.offset == write.offset && read.nbytes == write.nbytes ==> serve_request(
            write,
            from,
            file,
            turns,
        ).file.subrange(read.offset as int, read.offset + read.nbytes) == gather(
            from,
            write.iov,
            0,
            write.nbytes as int,
        ).0,
{
    let bytes = gather(from, write.iov, 0, write.nbytes as int).0;
    lemma_write_served(write, from, file, turns);
    let after = file_write(file, write.offset as int, bytes);
    let span = spec_span(write.offset, write.nbytes, write.align, write.window)->0;
    lemma_span(span);
    assert(after.len() == file.len());
    if read.offset == write.offset && read.nbytes == write.nbytes {
        assert(after.subrange(read.offset as int, read.offset + read.nbytes) =~= bytes);
    }
    lemma_read_served(read, into, after, turns);
}

} // verus!
