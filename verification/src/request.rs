//! Request control blocks.

use crate::iov::Iovec;
use std::sync::atomic::{AtomicI64, AtomicU32, Ordering};
use std::sync::Arc;
use vstd::prelude::*;

verus! {

/// What a request asks for.
#[derive(Debug, Clone, Copy, PartialEq, Eq, Structural)]
pub enum OpCode {
    Noop,
    Preadv,
    Pwritev,
    Fdsync,
    Discard,
    WriteZeroes,
    WriteZeroesUnmap,
}

/// Whether a write of zeros is turned into a zeroing call, and whether that
/// call may release storage.
#[derive(Debug, Clone, Copy, PartialEq, Eq, Structural)]
pub enum WriteZeroesState {
    Off,
    On,
    Unmap,
}

/// Where a request that is part of a combined request stands after one of its
/// parts has completed.
#[derive(Debug, Clone, Copy, PartialEq, Eq, Structural)]
pub enum AioReqResult {
    /// Other parts are still in flight.
    Inflight,
    /// All parts have completed, and the first failure among them left this
    /// negative status.
    Error(i64),
    /// All parts have completed without failure.
    Done,
}

/// The unit of work that passes through the engine.
pub struct AioCb<T> {
    pub direct: bool,
    pub req_align: u32,
    pub buf_align: u32,
    pub discard: bool,
    pub write_zeroes: WriteZeroesState,
    pub file_fd: i32,
    pub opcode: OpCode,
    pub iovec: Vec<Iovec>,
    pub offset: u64,
    pub nbytes: u64,
    /// Tag under which the engine has queued the request; the backend hands it
    /// back with the completion event.
    pub user_data: u64,
    /// Caller state, handed back untouched with the completion.
    pub iocompletecb: T,
    /// Parts still outstanding and first failure of the combined request that
    /// this one is a part of.
    pub combine_req: Option<(Arc<AtomicU32>, Arc<AtomicI64>)>,
}

/// `value` is a multiple of the alignment `align`; nothing is aligned to zero.
pub open spec fn aligned(value: int, align: int) -> bool {
    align != 0 && value % align == 0
}

/// The segment can be handed to direct I/O as it is.
pub open spec fn segment_aligned(iov: Iovec, buf_align: u32, req_align: u32) -> bool {
    aligned(iov.iov_base as int, buf_align as int) && aligned(iov.iov_len as int, req_align as int)
}

/// Where a combined request stands, seen by the part that found `before` parts
/// outstanding, itself included, and `status` as the shared status after it had
/// published its own.
pub open spec fn spec_combine_outcome(before: u32, status: i64) -> AioReqResult {
    if before > 1 {
        AioReqResult::Inflight
    } else if status < 0 {
        AioReqResult::Error(status)
    } else {
        AioReqResult::Done
    }
}

/// Where a combined request stands after one part has completed.
pub fn combine_outcome(before: u32, status: i64) -> (res: AioReqResult)
    ensures
        res == spec_combine_outcome(before, status),
{
    if before > 1 {
        AioReqResult::Inflight
    } else if status < 0 {
        AioReqResult::Error(status)
    } else {
        AioReqResult::Done
    }
}

/// A request with these properties has to go through the bounce buffer: it is
/// a direct read or write whose offset, or one of whose segments, is not
/// aligned.
pub open spec fn spec_misaligned(
    direct: bool,
    req_align: u32,
    buf_align: u32,
    opcode: OpCode,
    offset: u64,
    iovec: Seq<Iovec>,
) -> bool {
    &&& direct
    &&& (opcode == OpCode::Preadv || opcode == OpCode::Pwritev)
    &&& (!aligned(offset as int, req_align as int) || exists|i: int|
        0 <= i < iovec.len() && !segment_aligned(#[trigger] iovec[i], buf_align, req_align))
}

/// The engine looks at the host memory behind the vector of a request with
/// these properties: to serve it through the bounce buffer, or to tell whether
/// it writes nothing but zeros.
pub open spec fn spec_reads_memory(
    direct: bool,
    req_align: u32,
    buf_align: u32,
    write_zeroes: WriteZeroesState,
    opcode: OpCode,
    offset: u64,
    iovec: Seq<Iovec>,
) -> bool {
    spec_misaligned(direct, req_align, buf_align, opcode, offset, iovec) || (opcode
        == OpCode::Pwritev && write_zeroes != WriteZeroesState::Off)
}

/// Tells whether a request with these properties has to go through the bounce
/// buffer.
pub fn is_misaligned(
    direct: bool,
    req_align: u32,
    buf_align: u32,
    opcode: OpCode,
    offset: u64,
    iovec: &[Iovec],
) -> (res: bool)
    ensures
        res == spec_misaligned(direct, req_align, buf_align, opcode, offset, iovec@),
{
    if direct && (opcode == OpCode::Preadv || opcode == OpCode::Pwritev) {
        if req_align == 0 {
            return true;
        }
        if offset % (req_align as u64) != 0 {
            return true;
        }
        let mut i: usize = 0;
        while i < iovec.len()
            invariant
                0 <= i <= iovec@.len(),
                direct,
                opcode == OpCode::Preadv || opcode == OpCode::Pwritev,
                aligned(offset as int, req_align as int),
                forall|k: int|
                    0 <= k < i ==> segment_aligned(#[trigger] iovec@[k], buf_align, req_align),
            decreases iovec@.len() - i,
        {
            let iov = iovec[i];
            if buf_align == 0 || iov.iov_base % (buf_align as u64) != 0 {
                assert(!segment_aligned(iovec@[i as int], buf_align, req_align));
                return true;
            }
            if iov.iov_len % (req_align as u64) != 0 {
                assert(!segment_aligned(iovec@[i as int], buf_align, req_align));
                return true;
            }
            i = i + 1;
        }
    }
    false
}

/// Tells whether the engine looks at the host memory behind the vector of a
/// request with these properties.
pub fn reads_memory(
    direct: bool,
    req_align: u32,
    buf_align: u32,
    write_zeroes: WriteZeroesState,
    opcode: OpCode,
    offset: u64,
    iovec: &[Iovec],
) -> (res: bool)
    ensures
        res == spec_reads_memory(
            direct,
            req_align,
            buf_align,
            write_zeroes,
            opcode,
            offset,
            iovec@,
        ),
{
    if opcode == OpCode::Pwritev && write_zeroes != WriteZeroesState::Off {
        return true;
    }
    is_misaligned(direct, req_align, buf_align, opcode, offset, iovec)
}

impl<T> AioCb<T> {
    /// The request has to go through the bounce buffer: it is a direct read or
    /// write whose offset, or one of whose segments, is not aligned.
    pub open spec fn misaligned(&self) -> bool {
        spec_misaligned(
            self.direct,
            self.req_align,
            self.buf_align,
            self.opcode,
            self.offset,
            self.iovec@,
        )
    }

    /// The engine looks at the host memory behind the vector of the request.
    pub open spec fn reads_memory(&self) -> bool {
        spec_reads_memory(
            self.direct,
            self.req_align,
            self.buf_align,
            self.write_zeroes,
            self.opcode,
            self.offset,
            self.iovec@,
        )
    }

    /// Tells whether the request has to go through the bounce buffer.
    pub fn request_misaligned(&self) -> (res: bool)
        ensures
            res == self.misaligned(),
    {
        is_misaligned(
            self.direct,
            self.req_align,
            self.buf_align,
            self.opcode,
            self.offset,
            self.iovec.as_slice(),
        )
    }

    /// Tells whether the engine looks at the host memory behind the vector of
    /// the request. Where it does not, any memory may be handed to it.
    pub fn needs_memory(&self) -> (res: bool)
        ensures
            res == self.reads_memory(),
    {
        reads_memory(
            self.direct,
            self.req_align,
            self.buf_align,
            self.write_zeroes,
            self.opcode,
            self.offset,
            self.iovec.as_slice(),
        )
    }

    /// Records the result `ret` of this request in the combined request that it
    /// is a part of, and tells where the combined request stands.
    ///
    /// A failure is published as the shared status unless an earlier failure
    /// stands there. A request that is no part of a combined request is done.
    /// For one that is, the answer follows `spec_combine_outcome` from what the
    /// shared counters held, which other parts change as well.
    pub fn req_is_completed(&self, ret: i64) -> (res: AioReqResult)
        ensures
            self.combine_req is None ==> res == AioReqResult::Done,
            self.combine_req is Some ==> exists|before: u32, status: i64|
                res == spec_combine_outcome(before, status),
    {
        match &self.combine_req {
            None => AioReqResult::Done,
            Some(pair) => {
                if ret < 0 {
                    let _ = pair.1.compare_exchange(0, ret, Ordering::SeqCst, Ordering::SeqCst);
                }
                let before: u32 = pair.0.fetch_sub(1, Ordering::SeqCst);
                let status: i64 = if before > 1 {
                    0
                } else {
                    pair.1.load(Ordering::SeqCst)
                };
                let res = combine_outcome(before, status);
                assert(res == spec_combine_outcome(before, status));
                res
            },
        }
    }
}

} // verus!
