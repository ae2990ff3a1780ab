//! Per-file facade of the engine.
//!
//! A [`FileDriver`] packages requests for one file: it merges the properties
//! of the file with the parameters of a call, and hands the request to its
//! engine.

use crate::engine::submit_answer;
use crate::engine::{Aio, AioEngine, Submitted};
use crate::error::AioError;
use crate::iov::{get_iov_size, iov_size, Iovec};
use crate::mem::HostMem;
use crate::request::{reads_memory, spec_reads_memory, AioCb, OpCode, WriteZeroesState};
use vstd::prelude::*;
use vstd::slice::slice_to_vec;

verus! {

/// Properties of a block file that every request on it shares.
pub struct BlockProperty {
    /// Event loop that owns the engine, if it is not the main one.
    pub iothread: Option<String>,
    /// I/O bypasses the host cache and has to obey the alignments.
    pub direct: bool,
    /// Granularity of offsets and lengths for direct I/O.
    pub req_align: u32,
    /// Granularity of buffer addresses for direct I/O.
    pub buf_align: u32,
    /// Storage may be released.
    pub discard: bool,
    pub write_zeroes: WriteZeroesState,
}

/// The facade of one file.
pub struct FileDriver<T> {
    /// Descriptor of the file.
    pub file_fd: i32,
    pub aio: Aio<T>,
    pub block_prop: BlockProperty,
}

/// The request that a call on a file with the properties `prop` makes.
pub open spec fn packaged<T>(
    file_fd: i32,
    prop: BlockProperty,
    opcode: OpCode,
    iovec: Vec<Iovec>,
    offset: u64,
    nbytes: u64,
    iocompletecb: T,
) -> AioCb<T> {
    AioCb {
        direct: prop.direct,
        req_align: prop.req_align,
        buf_align: prop.buf_align,
        discard: prop.discard,
        write_zeroes: prop.write_zeroes,
        file_fd,
        opcode,
        iovec,
        offset,
        nbytes,
        user_data: 0,
        iocompletecb,
        combine_req: None,
    }
}

/// The request of a call that carries a vector.
pub open spec fn is_vectored<T>(
    cb: AioCb<T>,
    driver: FileDriver<T>,
    opcode: OpCode,
    iovec: Seq<Iovec>,
    offset: u64,
    iocompletecb: T,
) -> bool {
    &&& cb.iovec@ == iovec
    &&& cb == packaged(
        driver.file_fd,
        driver.block_prop,
        opcode,
        cb.iovec,
        offset,
        iov_size(iovec) as u64,
        iocompletecb,
    )
}

/// The request of a call that carries no vector.
pub open spec fn is_plain<T>(
    cb: AioCb<T>,
    driver: FileDriver<T>,
    opcode: OpCode,
    offset: u64,
    nbytes: u64,
    iocompletecb: T,
) -> bool {
    &&& cb.iovec@.len() == 0
    &&& cb == packaged(
        driver.file_fd,
        driver.block_prop,
        opcode,
        cb.iovec,
        offset,
        nbytes,
        iocompletecb,
    )
}

/// A handler of the completion descriptor reaps unless the device is broken;
/// the poll handler also stays idle when there is no backend.
pub open spec fn spec_handler_reaps(broken: bool, polling: bool, engine: AioEngine) -> bool {
    !broken && !(polling && engine == AioEngine::Off)
}

/// Tells whether a handler of the completion descriptor is to reap: `broken`
/// is the device's flag, and `polling` is set for the poll handler.
pub fn handler_reaps(broken: bool, polling: bool, engine: AioEngine) -> (reaps: bool)
    ensures
        reaps == spec_handler_reaps(broken, polling, engine),
{
    if broken {
        return false;
    }
    if polling && engine == AioEngine::Off {
        return false;
    }
    true
}

impl<T> FileDriver<T> {
    pub fn new(file_fd: i32, aio: Aio<T>, block_prop: BlockProperty) -> (driver: Self)
        ensures
            driver.file_fd == file_fd,
            driver.aio == aio,
            driver.block_prop == block_prop,
    {
        FileDriver { file_fd, aio, block_prop }
    }

    /// Merges the properties of the file with the parameters of a call.
    pub fn package_aiocb(
        &self,
        opcode: OpCode,
        iovec: Vec<Iovec>,
        offset: u64,
        nbytes: u64,
        iocompletecb: T,
    ) -> (cb: AioCb<T>)
        ensures
            cb == packaged(
                self.file_fd,
                self.block_prop,
                opcode,
                iovec,
                offset,
                nbytes,
                iocompletecb,
            ),
    {
        AioCb {
            direct: self.block_prop.direct,
            req_align: self.block_prop.req_align,
            buf_align: self.block_prop.buf_align,
            discard: self.block_prop.discard,
            write_zeroes: self.block_prop.write_zeroes,
            file_fd: self.file_fd,
            opcode,
            iovec,
            offset,
            nbytes,
            user_data: 0,
            iocompletecb,
            combine_req: None,
        }
    }

    /// Submits a read of the bytes that `iovec` describes at `offset`.
    pub fn read_vectored(&mut self, mem: &HostMem, iovec: &[Iovec], offset: u64, completecb: T) -> (res:
        Result<Submitted<T>, AioError>)
        requires
            old(self).aio@.wf(),
            iov_size(iovec@) <= u64::MAX,
        ensures
            final(self).aio@.wf(),
            final(self).file_fd == old(self).file_fd,
            final(self).block_prop == old(self).block_prop,
            exists|cb: AioCb<T>|
                {
                    &&& is_vectored(cb, *old(self), OpCode::Preadv, iovec@, offset, completecb)
                    &&& final(self).aio@ == old(self).aio@.submit(cb, mem@)
                    &&& #[trigger] submit_answer(old(self).aio@, cb, mem@, res)
                },
    {
        let aiocb = self.package_aiocb(
            OpCode::Preadv,
            slice_to_vec(iovec),
            offset,
            get_iov_size(iovec),
            completecb,
        );
        self.aio.submit_request(aiocb, mem)
    }

    /// Submits a write of the bytes that `iovec` describes at `offset`.
    pub fn write_vectored(&mut self, mem: &HostMem, iovec: &[Iovec], offset: u64, completecb: T) -> (res:
        Result<Submitted<T>, AioError>)
        requires
            old(self).aio@.wf(),
            iov_size(iovec@) <= u64::MAX,
        ensures
            final(self).aio@.wf(),
            final(self).file_fd == old(self).file_fd,
            final(self).block_prop == old(self).block_prop,
            exists|cb: AioCb<T>|
                {
                    &&& is_vectored(cb, *old(self), OpCode::Pwritev, iovec@, offset, completecb)
                    &&& final(self).aio@ == old(self).aio@.submit(cb, mem@)
                    &&& #[trigger] submit_answer(old(self).aio@, cb, mem@, res)
                },
    {
        let aiocb = self.package_aiocb(
            OpCode::Pwritev,
            slice_to_vec(iovec),
            offset,
            get_iov_size(iovec),
            completecb,
        );
        self.aio.submit_request(aiocb, mem)
    }

    /// Submits the zeroing of `nbytes` bytes at `offset`, with release of the
    /// storage where `unmap` is set.
    pub fn write_zeroes(
        &mut self,
        mem: &HostMem,
        offset: u64,
        nbytes: u64,
        completecb: T,
        unmap: bool,
    ) -> (res: Result<Submitted<T>, AioError>)
        requires
            old(self).aio@.wf(),
        ensures
            final(self).aio@.wf(),
            final(self).file_fd == old(self).file_fd,
            final(self).block_prop == old(self).block_prop,
            exists|cb: AioCb<T>|
                {
                    &&& is_plain(
                        cb,
                        *old(self),
                        if unmap {
                            OpCode::WriteZeroesUnmap
                        } else {
                            OpCode::WriteZeroes
                        },
                        offset,
                        nbytes,
                        completecb,
                    )
                    &&& final(self).aio@ == old(self).aio@.submit(cb, mem@)
                    &&& #[trigger] submit_answer(old(self).aio@, cb, mem@, res)
                },
    {
        let opcode = if unmap {
            OpCode::WriteZeroesUnmap
        } else {
            OpCode::WriteZeroes
        };
        let aiocb = self.package_aiocb(opcode, Vec::new(), offset, nbytes, completecb);
        self.aio.submit_request(aiocb, mem)
    }

    /// Submits the release of the storage of `nbytes` bytes at `offset`.
    pub fn discard(&mut self, mem: &HostMem, offset: u64, nbytes: u64, completecb: T) -> (res:
        Result<Submitted<T>, AioError>)
        requires
            old(self).aio@.wf(),
        ensures
            final(self).aio@.wf(),
            final(self).file_fd == old(self).file_fd,
            final(self).block_prop == old(self).block_prop,
            exists|cb: AioCb<T>|
                {
                    &&& is_plain(cb, *old(self), OpCode::Discard, offset, nbytes, completecb)
                    &&& final(self).aio@ == old(self).aio@.submit(cb, mem@)
                    &&& #[trigger] submit_answer(old(self).aio@, cb, mem@, res)
                },
    {
        let aiocb = self.package_aiocb(OpCode::Discard, Vec::new(), offset, nbytes, completecb);
        self.aio.submit_request(aiocb, mem)
    }

    /// Submits a data barrier.
    pub fn datasync(&mut self, mem: &HostMem, completecb: T) -> (res: Result<
        Submitted<T>,
        AioError,
    >)
        requires
            old(self).aio@.wf(),
        ensures
            final(self).aio@.wf(),
            final(self).file_fd == old(self).file_fd,
            final(self).block_prop == old(self).block_prop,
            exists|cb: AioCb<T>|
                {
                    &&& is_plain(cb, *old(self), OpCode::Fdsync, 0, 0, completecb)
                    &&& final(self).aio@ == old(self).aio@.submit(cb, mem@)
                    &&& #[trigger] submit_answer(old(self).aio@, cb, mem@, res)
                },
    {
        let aiocb = self.package_aiocb(OpCode::Fdsync, Vec::new(), 0, 0, completecb);
        self.aio.submit_request(aiocb, mem)
    }

    /// Tells whether the engine looks at the host memory behind `iovec` when
    /// the file is asked for `opcode` at `offset` with it. Where it does not,
    /// any memory may be handed to the call.
    pub fn needs_memory(&self, opcode: OpCode, iovec: &[Iovec], offset: u64) -> (res: bool)
        ensures
            res == spec_reads_memory(
                self.block_prop.direct,
                self.block_prop.req_align,
                self.block_prop.buf_align,
                self.block_prop.write_zeroes,
                opcode,
                offset,
                iovec@,
            ),
    {
        reads_memory(
            self.block_prop.direct,
            self.block_prop.req_align,
            self.block_prop.buf_align,
            self.block_prop.write_zeroes,
            opcode,
            offset,
            iovec,
        )
    }

    /// Tells whether the engine holds no request, pending or in flight. Other
    /// threads watch the published counter of the engine for the same.
    pub fn drained(&self) -> (drained: bool)
        ensures
            drained == (self.aio@.incomplete() == 0),
    {
        self.aio.pending_len() == 0 && self.aio.in_flight_len() == 0
    }
}

} // verus!
