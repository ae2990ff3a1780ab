//! Requests served on the submitting thread.
//!
//! The raw primitives block, and each returns the bytes transferred (zero for
//! an operation without a byte count) or a negative error. This module says
//! which primitive serves a request, and what its return value comes to.

use crate::request::{AioCb, OpCode};
use vstd::prelude::*;

verus! {

/// A raw primitive on the request's file, with the request's vector, offset
/// and length as far as it takes them.
#[derive(Debug, Clone, Copy, PartialEq, Eq, Structural)]
pub enum RawOp {
    /// Vectored positional read.
    Readv,
    /// Vectored positional write.
    Writev,
    /// Data barrier.
    Datasync,
    /// Release of the backing storage in the range.
    Discard,
    /// Zeroing of the range.
    WriteZeroes,
}

/// What a request served on the submitting thread needs next.
#[derive(Debug, Clone, Copy, PartialEq, Eq, Structural)]
pub enum SyncStep {
    /// The primitive is to be run.
    Run(RawOp),
    /// The request has ended with this result.
    Done(i64),
}

/// The primitive that serves a request first. A zeroing that may release
/// storage first tries to discard. A request without an operation fails.
pub open spec fn spec_sync_begin(opcode: OpCode) -> SyncStep {
    match opcode {
        OpCode::Preadv => SyncStep::Run(RawOp::Readv),
        OpCode::Pwritev => SyncStep::Run(RawOp::Writev),
        OpCode::Fdsync => SyncStep::Run(RawOp::Datasync),
        OpCode::Discard => SyncStep::Run(RawOp::Discard),
        OpCode::WriteZeroes => SyncStep::Run(RawOp::WriteZeroes),
        OpCode::WriteZeroesUnmap => SyncStep::Run(RawOp::Discard),
        OpCode::Noop => SyncStep::Done(-1i64),
    }
}

/// Result of a read or write of `nbytes` bytes whose primitive has returned
/// `ret`: an error is passed on, and a short transfer is a failure.
pub open spec fn spec_rw_result(nbytes: u64, ret: i64) -> i64 {
    if ret < 0 {
        ret
    } else if ret != nbytes {
        -1i64
    } else {
        ret
    }
}

/// What follows after the primitive `op` has returned `ret` for a request.
///
/// A read or write ends with `spec_rw_result`. A flush, a discard and a
/// zeroing end with what the primitive returned. A zeroing that may release
/// storage ends with success when the discard succeeded, else it falls back to
/// zeroing. A primitive that does not serve the request fails it.
pub open spec fn spec_sync_after(opcode: OpCode, nbytes: u64, op: RawOp, ret: i64) -> SyncStep {
    match (opcode, op) {
        (OpCode::Preadv, RawOp::Readv) => SyncStep::Done(spec_rw_result(nbytes, ret)),
        (OpCode::Pwritev, RawOp::Writev) => SyncStep::Done(spec_rw_result(nbytes, ret)),
        (OpCode::Fdsync, RawOp::Datasync) => SyncStep::Done(ret),
        (OpCode::Discard, RawOp::Discard) => SyncStep::Done(ret),
        (OpCode::WriteZeroes, RawOp::WriteZeroes) => SyncStep::Done(ret),
        (OpCode::WriteZeroesUnmap, RawOp::Discard) => if ret == 0 {
            SyncStep::Done(0)
        } else {
            SyncStep::Run(RawOp::WriteZeroes)
        },
        (OpCode::WriteZeroesUnmap, RawOp::WriteZeroes) => SyncStep::Done(ret),
        _ => SyncStep::Done(-1i64),
    }
}

/// Result of a read or write of `nbytes` bytes whose primitive has returned
/// `ret`.
pub fn rw_result(nbytes: u64, ret: i64) -> (res: i64)
    ensures
        res == spec_rw_result(nbytes, ret),
{
    if ret < 0 {
        ret
    } else if ret as u64 != nbytes {
        -1
    } else {
        ret
    }
}

impl<T> AioCb<T> {
    /// The primitive that serves the request first.
    pub fn sync_begin(&self) -> (step: SyncStep)
        ensures
            step == spec_sync_begin(self.opcode),
    {
        match self.opcode {
            OpCode::Preadv => SyncStep::Run(RawOp::Readv),
            OpCode::Pwritev => SyncStep::Run(RawOp::Writev),
            OpCode::Fdsync => SyncStep::Run(RawOp::Datasync),
            OpCode::Discard => SyncStep::Run(RawOp::Discard),
            OpCode::WriteZeroes => SyncStep::Run(RawOp::WriteZeroes),
            OpCode::WriteZeroesUnmap => SyncStep::Run(RawOp::Discard),
            OpCode::Noop => SyncStep::Done(-1),
        }
    }

    /// What follows after the primitive `op` has returned `ret`.
    pub fn sync_after(&self, op: RawOp, ret: i64) -> (step: SyncStep)
        ensures
            step == spec_sync_after(self.opcode, self.nbytes, op, ret),
    {
        match (self.opcode, op) {
            (OpCode::Preadv, RawOp::Readv) => SyncStep::Done(rw_result(self.nbytes, ret)),
            (OpCode::Pwritev, RawOp::Writev) => SyncStep::Done(rw_result(self.nbytes, ret)),
            (OpCode::Fdsync, RawOp::Datasync) => SyncStep::Done(ret),
            (OpCode::Discard, RawOp::Discard) => SyncStep::Done(ret),
            (OpCode::WriteZeroes, RawOp::WriteZeroes) => SyncStep::Done(ret),
            (OpCode::WriteZeroesUnmap, RawOp::Discard) => {
                if ret == 0 {
                    SyncStep::Done(0)
                } else {
                    SyncStep::Run(RawOp::WriteZeroes)
                }
            },
            (OpCode::WriteZeroesUnmap, RawOp::WriteZeroes) => SyncStep::Done(ret),
            _ => SyncStep::Done(-1),
        }
    }
}

} // verus!
