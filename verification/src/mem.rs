//! Host memory that the engine may touch, and the copies between it and flat
//! buffers.
//!
//! A scatter/gather vector names host addresses. The engine never follows such
//! an address on its own: every access goes through a [`HostMem`], the window
//! of host memory that the caller lends to it. An access that leaves the window
//! is refused with [`AioError::BadAddress`].

use crate::error::AioError;
use crate::iov::Iovec;
use vstd::math::min;
use vstd::prelude::*;
use vstd::slice::slice_subrange;

verus! {

/// A contiguous window of host memory: `bytes[i]` is the byte at the host
/// virtual address `base + i`.
pub struct HostMem {
    pub base: u64,
    pub bytes: Vec<u8>,
}

/// What a [`HostMem`] holds, as a mathematical value.
#[verifier::ext_equal]
pub struct MemView {
    pub base: u64,
    pub bytes: Seq<u8>,
}

impl View for HostMem {
    type V = MemView;

    open spec fn view(&self) -> MemView {
        MemView { base: self.base, bytes: self.bytes@ }
    }
}

impl MemView {
    /// The `len` bytes from address `hva` on lie inside the window and inside
    /// the 64-bit address space. An empty range lies inside any window.
    pub open spec fn covers(self, hva: int, len: int) -> bool {
        len == 0 || (self.base <= hva && hva + len <= self.base + self.bytes.len() && hva + len
            <= u64::MAX + 1)
    }

    /// The `len` bytes from address `hva` on.
    pub open spec fn read(self, hva: int, len: int) -> Seq<u8> {
        if len == 0 {
            Seq::empty()
        } else {
            self.bytes.subrange(hva - self.base, hva - self.base + len)
        }
    }

    /// The window after `data` has been stored from address `hva` on.
    pub open spec fn write(self, hva: int, data: Seq<u8>) -> MemView {
        if data.len() == 0 {
            self
        } else {
            MemView {
                base: self.base,
                bytes: self.bytes.subrange(0, hva - self.base) + data + self.bytes.subrange(
                    hva - self.base + data.len(),
                    self.bytes.len() as int,
                ),
            }
        }
    }
}

impl HostMem {
    /// A window that starts at `base` and holds `bytes`.
    pub fn new(base: u64, bytes: Vec<u8>) -> (mem: Self)
        ensures
            mem@ == (MemView { base, bytes: bytes@ }),
    {
        HostMem { base, bytes }
    }

    /// Index into `bytes` of the address `hva`, when the `len` bytes from there
    /// on lie inside the window.
    fn locate(&self, hva: u64, len: usize) -> (res: Option<usize>)
        ensures
            res is Some <==> self@.covers(hva as int, len as int),
            res matches Some(at) ==> len > 0 ==> at == hva - self.base && at + len
                <= self.bytes@.len(),
    {
        if len == 0 {
            return Some(0);
        }
        if hva < self.base {
            return None;
        }
        let delta: u64 = hva - self.base;
        let size: usize = self.bytes.len();
        if delta > size as u64 {
            return None;
        }
        let at: usize = delta as usize;
        if len > size - at {
            return None;
        }
        if (len - 1) as u64 > u64::MAX - hva {
            return None;
        }
        Some(at)
    }
}

/// Copies `src[from..from + len]` over `dst[at..at + len]`.
pub(crate) fn copy_bytes(dst: &mut [u8], at: usize, src: &[u8], from: usize, len: usize)
    requires
        at + len <= old(dst)@.len(),
        from + len <= src@.len(),
    ensures
        final(dst)@ == old(dst)@.take(at as int) + src@.subrange(from as int, from + len)
            + old(dst)@.skip(at + len),
{
    let size: usize = dst.len();
    let avail: usize = src.len();
    let mut j: usize = 0;
    while j < len
        invariant
            0 <= j <= len,
            size == dst@.len(),
            avail == src@.len(),
            at + len <= dst@.len(),
            from + len <= src@.len(),
            dst@.len() == old(dst)@.len(),
            dst@ == old(dst)@.take(at as int) + src@.subrange(from as int, from + j) + old(
                dst,
            )@.skip(at + j),
        decreases len - j,
    {
        dst[at + j] = src[from + j];
        j = j + 1;
    }
}

/// Stores `buf` into host memory from address `hva` on.
///
/// Fails, and leaves the memory as it was, when the range leaves the window.
pub fn mem_from_buf(mem: &mut HostMem, buf: &[u8], hva: u64) -> (res: Result<(), AioError>)
    ensures
        old(mem)@.covers(hva as int, buf@.len() as int) ==> res is Ok && final(mem)@ == old(
            mem,
        )@.write(hva as int, buf@),
        !old(mem)@.covers(hva as int, buf@.len() as int) ==> res == Err::<(), AioError>(
            AioError::BadAddress,
        ) && final(mem)@ == old(mem)@,
{
    match mem.locate(hva, buf.len()) {
        None => Err(AioError::BadAddress),
        Some(at) => {
            if buf.len() > 0 {
                copy_bytes(mem.bytes.as_mut_slice(), at, buf, 0, buf.len());
                assert(buf@.subrange(0, buf@.len() as int) =~= buf@);
                assert(mem@ =~= old(mem)@.write(hva as int, buf@));
            }
            Ok(())
        },
    }
}

/// Loads `len` bytes of host memory from address `hva` on into `buf[at..at + len]`.
fn mem_read_into(mem: &HostMem, hva: u64, buf: &mut [u8], at: usize, len: usize) -> (res: Result<
    (),
    AioError,
>)
    requires
        at + len <= old(buf)@.len(),
    ensures
        mem@.covers(hva as int, len as int) ==> res is Ok && final(buf)@ == old(buf)@.take(
            at as int,
        ) + mem@.read(hva as int, len as int) + old(buf)@.skip(at + len),
        !mem@.covers(hva as int, len as int) ==> res == Err::<(), AioError>(AioError::BadAddress)
            && final(buf)@ == old(buf)@,
{
    match mem.locate(hva, len) {
        None => Err(AioError::BadAddress),
        Some(from) => {
            if len > 0 {
                copy_bytes(buf, at, mem.bytes.as_slice(), from, len);
            } else {
                assert(buf@ =~= old(buf)@.take(at as int) + Seq::<u8>::empty() + old(buf)@.skip(
                    at as int,
                ));
            }
            Ok(())
        },
    }
}

/// Fills `buf` with the host memory from address `hva` on.
///
/// Fails, and leaves `buf` as it was, when the range leaves the window.
pub fn mem_to_buf(mem: &HostMem, buf: &mut [u8], hva: u64) -> (res: Result<(), AioError>)
    ensures
        mem@.covers(hva as int, old(buf)@.len() as int) ==> res is Ok && final(buf)@ == mem@.read(
            hva as int,
            old(buf)@.len() as int,
        ),
        !mem@.covers(hva as int, old(buf)@.len() as int) ==> res == Err::<(), AioError>(
            AioError::BadAddress,
        ) && final(buf)@ == old(buf)@,
{
    let len = buf.len();
    let res = mem_read_into(mem, hva, buf, 0, len);
    proof {
        if res is Ok {
            assert(buf@ =~= mem@.read(hva as int, len as int));
        }
    }
    res
}

/// Outcome of storing a flat buffer through a vector, segment by segment.
///
/// Segment after segment takes as many of the remaining bytes as it has room
/// for, and the walk ends with the segment that takes the last byte. The first
/// component is the memory afterwards. The second is the number of bytes
/// stored, or `None` when a segment's share left the window; the shares before
/// it have been stored then.
pub open spec fn scatter(mem: MemView, iovecs: Seq<Iovec>, buf: Seq<u8>) -> (MemView, Option<int>)
    decreases iovecs.len(),
{
    if iovecs.len() == 0 {
        (mem, Some(0))
    } else {
        let n = min(iovecs[0].iov_len as int, buf.len() as int);
        if !mem.covers(iovecs[0].iov_base as int, n) {
            (mem, None)
        } else {
            let stored = mem.write(iovecs[0].iov_base as int, buf.take(n));
            if n >= buf.len() {
                (stored, Some(n))
            } else {
                let rest = scatter(stored, iovecs.skip(1), buf.skip(n));
                (
                    rest.0,
                    match rest.1 {
                        Some(k) => Some(k + n),
                        None => None,
                    },
                )
            }
        }
    }
}

/// Outcome of loading up to `want` bytes through a vector, after skipping the
/// first `offset` bytes that the vector describes.
///
/// The first component holds the bytes loaded. The second is false when a
/// segment's share left the window; the bytes of the segments before it have
/// been loaded then.
pub open spec fn gather(mem: MemView, iovecs: Seq<Iovec>, offset: int, want: int) -> (
    Seq<u8>,
    bool,
)
    decreases iovecs.len(),
{
    if iovecs.len() == 0 {
        (Seq::empty(), true)
    } else if offset > 0 && iovecs[0].iov_len <= offset {
        gather(mem, iovecs.skip(1), offset - iovecs[0].iov_len, want)
    } else {
        let n = min(iovecs[0].iov_len - offset, want);
        let hva = iovecs[0].iov_base + offset;
        if !mem.covers(hva, n) {
            (Seq::empty(), false)
        } else if n >= want {
            (mem.read(hva, n), true)
        } else {
            let rest = gather(mem, iovecs.skip(1), 0, want - n);
            (mem.read(hva, n) + rest.0, rest.1)
        }
    }
}

/// `gather` never loads more than it was asked for.
pub proof fn lemma_gather_len(mem: MemView, iovecs: Seq<Iovec>, offset: int, want: int)
    requires
        0 <= offset,
        0 <= want,
    ensures
        gather(mem, iovecs, offset, want).0.len() <= want,
    decreases iovecs.len(),
{
    if iovecs.len() == 0 {
    } else if offset > 0 && iovecs[0].iov_len <= offset {
        lemma_gather_len(mem, iovecs.skip(1), offset - iovecs[0].iov_len, want);
    } else {
        let n = min(iovecs[0].iov_len - offset, want);
        if n < want {
            lemma_gather_len(mem, iovecs.skip(1), 0, want - n);
        }
    }
}

/// `scatter` stores no more bytes than the buffer holds.
pub proof fn lemma_scatter_len(mem: MemView, iovecs: Seq<Iovec>, buf: Seq<u8>)
    ensures
        scatter(mem, iovecs, buf).1 matches Some(n) ==> 0 <= n <= buf.len(),
    decreases iovecs.len(),
{
    if iovecs.len() > 0 {
        let n = min(iovecs[0].iov_len as int, buf.len() as int);
        if mem.covers(iovecs[0].iov_base as int, n) && n < buf.len() {
            lemma_scatter_len(
                mem.write(iovecs[0].iov_base as int, buf.take(n)),
                iovecs.skip(1),
                buf.skip(n),
            );
        }
    }
}

/// Write buf to iovec and return the written number of bytes.
pub fn iov_from_buf_direct(mem: &mut HostMem, iovec: &[Iovec], buf: &[u8]) -> (res: Result<
    usize,
    AioError,
>)
    ensures
        final(mem)@ == scatter(old(mem)@, iovec@, buf@).0,
        match scatter(old(mem)@, iovec@, buf@).1 {
            Some(n) => res == Ok::<usize, AioError>(n as usize) && 0 <= n <= buf@.len(),
            None => res == Err::<usize, AioError>(AioError::BadAddress),
        },
{
    let mut start: usize = 0;
    let mut i: usize = 0;
    proof {
        assert(iovec@.skip(0) =~= iovec@);
        assert(buf@.skip(0) =~= buf@);
        lemma_scatter_len(old(mem)@, iovec@, buf@);
    }
    while i < iovec.len()
        invariant
            0 <= i <= iovec@.len(),
            0 <= start <= buf@.len(),
            scatter(old(mem)@, iovec@, buf@).0 == scatter(
                mem@,
                iovec@.skip(i as int),
                buf@.skip(start as int),
            ).0,
            scatter(old(mem)@, iovec@, buf@).1 == match scatter(
                mem@,
                iovec@.skip(i as int),
                buf@.skip(start as int),
            ).1 {
                Some(k) => Some(k + start),
                None => None,
            },
        decreases iovec@.len() - i,
    {
        let iov = iovec[i];
        let room: usize = buf.len() - start;
        let n: usize = if iov.iov_len > room as u64 {
            room
        } else {
            iov.iov_len as usize
        };
        let end: usize = start + n;
        let part = slice_subrange(buf, start, end);
        proof {
            assert(iovec@.skip(i as int)[0] == iov);
            assert(part@ =~= buf@.skip(start as int).take(n as int));
            assert(iovec@.skip(i as int).skip(1) =~= iovec@.skip(i + 1));
            assert(buf@.skip(start as int).skip(n as int) =~= buf@.skip(end as int));
        }
        match mem_from_buf(mem, part, iov.iov_base) {
            Err(e) => {
                return Err(e);
            },
            Ok(()) => {},
        }
        if end >= buf.len() {
            return Ok(end);
        }
        start = end;
        i = i + 1;
    }
    proof {
        assert(iovec@.skip(i as int) =~= Seq::<Iovec>::empty());
    }
    Ok(start)
}

/// A buffer that differs from `old` only inside `[at, at + len)` is `old` with
/// that region replaced.
proof fn lemma_region(old: Seq<u8>, cur: Seq<u8>, at: int, len: int)
    requires
        0 <= at,
        0 <= len,
        at + len <= old.len(),
        cur.len() == old.len(),
        cur.take(at) == old.take(at),
        cur.skip(at + len) == old.skip(at + len),
    ensures
        cur == old.take(at) + cur.subrange(at, at + len) + old.skip(at + len),
{
    assert(cur =~= cur.take(at) + cur.subrange(at, at + len) + cur.skip(at + len));
}

/// Storing `got` behind a region that has been filled grows the region, and
/// leaves the buffer around it as it was.
proof fn lemma_region_grows(old: Seq<u8>, before: Seq<u8>, after: Seq<u8>, at: int, len: int, got: Seq<u8>)
    requires
        0 <= at,
        0 <= len,
        at + len + got.len() <= old.len(),
        before.len() == old.len(),
        before.take(at) == old.take(at),
        before.skip(at + len) == old.skip(at + len),
        after == before.take(at + len) + got + before.skip(at + len + got.len()),
    ensures
        after.len() == old.len(),
        after.take(at) == old.take(at),
        after.skip(at + len + got.len()) == old.skip(at + len + got.len()),
        after.subrange(at, at + len + got.len()) == before.subrange(at, at + len) + got,
{
    let end = at + len + got.len();
    assert(after.take(at) =~= before.take(at));
    assert forall|k: int| 0 <= k < old.len() - end implies #[trigger] after.skip(end)[k]
        == old.skip(end)[k] by {
        assert(before.skip(at + len)[k + got.len()] == old.skip(at + len)[k + got.len()]);
    }
    assert(after.skip(end) =~= old.skip(end));
    assert(after.subrange(at, end) =~= before.subrange(at, at + len) + got);
}

/// Loads up to `want` bytes through a vector into `buf[at..at + want]`, after
/// skipping the first `offset` bytes that the vector describes.
pub(crate) fn gather_into(
    mem: &HostMem,
    iovec: &[Iovec],
    offset: u64,
    buf: &mut [u8],
    at: usize,
    want: usize,
) -> (res: Result<usize, AioError>)
    requires
        at + want <= old(buf)@.len(),
    ensures
        final(buf)@ == old(buf)@.take(at as int) + gather(
            mem@,
            iovec@,
            offset as int,
            want as int,
        ).0 + old(buf)@.skip(at + gather(mem@, iovec@, offset as int, want as int).0.len()),
        gather(mem@, iovec@, offset as int, want as int).0.len() <= want,
        gather(mem@, iovec@, offset as int, want as int).1 ==> res == Ok::<usize, AioError>(
            gather(mem@, iovec@, offset as int, want as int).0.len() as usize,
        ),
        !gather(mem@, iovec@, offset as int, want as int).1 ==> res == Err::<usize, AioError>(
            AioError::BadAddress,
        ),
{
    let ghost whole = gather(mem@, iovec@, offset as int, want as int);
    let size: usize = buf.len();
    let mut skip: u64 = offset;
    let mut start: usize = 0;
    let mut i: usize = 0;
    proof {
        lemma_gather_len(mem@, iovec@, offset as int, want as int);
        assert(iovec@.skip(0) =~= iovec@);
        assert(buf@.subrange(at as int, at as int) + whole.0 =~= whole.0);
    }
    while i < iovec.len()
        invariant
            0 <= i <= iovec@.len(),
            0 <= start <= want,
            at + want <= size,
            size == buf@.len(),
            size == old(buf)@.len(),
            whole == gather(mem@, iovec@, offset as int, want as int),
            whole.0.len() <= want,
            buf@.take(at as int) == old(buf)@.take(at as int),
            buf@.skip(at + start) == old(buf)@.skip(at + start),
            whole.0 == buf@.subrange(at as int, at + start) + gather(
                mem@,
                iovec@.skip(i as int),
                skip as int,
                want - start,
            ).0,
            whole.1 == gather(mem@, iovec@.skip(i as int), skip as int, want - start).1,
        decreases iovec@.len() - i,
    {
        let iov = iovec[i];
        let ghost here = gather(mem@, iovec@.skip(i as int), skip as int, want - start);
        let ghost before = buf@;
        let ghost done = before.subrange(at as int, at + start);
        proof {
            assert(iovec@.skip(i as int)[0] == iov);
            assert(iovec@.skip(i as int).skip(1) =~= iovec@.skip(i + 1));
        }
        if skip > 0 && iov.iov_len <= skip {
            skip = skip - iov.iov_len;
            i = i + 1;
        } else {
            let avail: u64 = iov.iov_len - skip;
            let room: usize = want - start;
            let n: usize = if avail > room as u64 {
                room
            } else {
                avail as usize
            };
            let ghost hva = iov.iov_base + skip;
            let ghost got = mem@.read(hva, n as int);
            if n > 0 {
                let from = match iov.iov_base.checked_add(skip) {
                    Some(from) => from,
                    None => {
                        proof {
                            assert(here.0 =~= Seq::<u8>::empty());
                            assert(whole.0 =~= done);
                            lemma_region(old(buf)@, buf@, at as int, start as int);
                        }
                        return Err(AioError::BadAddress);
                    },
                };
                match mem_read_into(mem, from, buf, at + start, n) {
                    Err(e) => {
                        proof {
                            assert(here.0 =~= Seq::<u8>::empty());
                            assert(whole.0 =~= done);
                            lemma_region(old(buf)@, buf@, at as int, start as int);
                        }
                        return Err(e);
                    },
                    Ok(()) => {},
                }
            } else {
                proof {
                    assert(buf@ =~= before.take(at + start) + got + before.skip(at + start));
                }
            }
            let end: usize = start + n;
            proof {
                lemma_region_grows(old(buf)@, before, buf@, at as int, start as int, got);
                if n >= want - start {
                    assert(here.0 == got);
                } else {
                    let rest = gather(mem@, iovec@.skip(i + 1), 0, want - end);
                    assert(here.0 == got + rest.0);
                    assert(done + (got + rest.0) =~= (done + got) + rest.0);
                }
            }
            if end >= want {
                proof {
                    lemma_region(old(buf)@, buf@, at as int, end as int);
                }
                return Ok(end);
            }
            start = end;
            skip = 0;
            i = i + 1;
        }
    }
    proof {
        assert(iovec@.skip(i as int) =~= Seq::<Iovec>::empty());
        assert(whole.0 =~= buf@.subrange(at as int, at + start));
        lemma_region(old(buf)@, buf@, at as int, start as int);
    }
    Ok(start)
}

/// Read iovec to buf and return the read number of bytes.
///
/// The first `offset` bytes that the vector describes are skipped. The bytes
/// loaded fill `buf` from its start; the rest of `buf` keeps its content.
pub fn iov_to_buf_direct(mem: &HostMem, iovec: &[Iovec], offset: u64, buf: &mut [u8]) -> (res:
    Result<usize, AioError>)
    ensures
        final(buf)@ == gather(mem@, iovec@, offset as int, old(buf)@.len() as int).0 + old(
            buf,
        )@.skip(gather(mem@, iovec@, offset as int, old(buf)@.len() as int).0.len() as int),
        gather(mem@, iovec@, offset as int, old(buf)@.len() as int).1 ==> res == Ok::<
            usize,
            AioError,
        >(gather(mem@, iovec@, offset as int, old(buf)@.len() as int).0.len() as usize),
        !gather(mem@, iovec@, offset as int, old(buf)@.len() as int).1 ==> res == Err::<
            usize,
            AioError,
        >(AioError::BadAddress),
{
    let want: usize = buf.len();
    let res = gather_into(mem, iovec, offset, buf, 0, want);
    proof {
        let got = gather(mem@, iovec@, offset as int, want as int).0;
        assert(old(buf)@.take(0) + got =~= got);
    }
    res
}

/// A segment that a zero-write may stand for: its length is a whole number of
/// 64-bit words, it lies inside the window, and all its bytes are zero.
pub open spec fn segment_is_zero(mem: MemView, iov: Iovec) -> bool {
    &&& iov.iov_len % 8 == 0
    &&& mem.covers(iov.iov_base as int, iov.iov_len as int)
    &&& forall|j: int|
        0 <= j < iov.iov_len ==> #[trigger] mem.read(iov.iov_base as int, iov.iov_len as int)[j]
            == 0
}

/// Every segment of the vector is a zero segment.
pub open spec fn iov_is_zero(mem: MemView, iovecs: Seq<Iovec>) -> bool {
    forall|i: int| 0 <= i < iovecs.len() ==> segment_is_zero(mem, #[trigger] iovecs[i])
}

/// Tells whether the data that a vector describes is all zero.
pub fn iovec_is_zero(mem: &HostMem, iovecs: &[Iovec]) -> (zero: bool)
    ensures
        zero == iov_is_zero(mem@, iovecs@),
{
    let size: usize = mem.bytes.len();
    let mut i: usize = 0;
    while i < iovecs.len()
        invariant
            0 <= i <= iovecs@.len(),
            size == mem.bytes@.len(),
            forall|k: int| 0 <= k < i ==> segment_is_zero(mem@, #[trigger] iovecs@[k]),
        decreases iovecs@.len() - i,
    {
        let iov = iovecs[i];
        if iov.iov_len % 8 != 0 {
            assert(!segment_is_zero(mem@, iovecs@[i as int]));
            return false;
        }
        if iov.iov_len > usize::MAX as u64 {
            assert(!segment_is_zero(mem@, iovecs@[i as int]));
            return false;
        }
        let len: usize = iov.iov_len as usize;
        match mem.locate(iov.iov_base, len) {
            None => {
                assert(!segment_is_zero(mem@, iovecs@[i as int]));
                return false;
            },
            Some(at) => {
                let mut j: usize = 0;
                while j < len
                    invariant
                        0 <= j <= len,
                        0 <= i < iovecs@.len(),
                        size == mem.bytes@.len(),
                        len == iov.iov_len,
                        len > 0 ==> at == iov.iov_base - mem.base && at + len <= mem.bytes@.len(),
                        iov == iovecs@[i as int],
                        mem@.covers(iov.iov_base as int, iov.iov_len as int),
                        forall|k: int|
                            0 <= k < j ==> #[trigger] mem@.read(
                                iov.iov_base as int,
                                iov.iov_len as int,
                            )[k] == 0,
                    decreases len - j,
                {
                    if mem.bytes[at + j] != 0 {
                        assert(mem@.read(iov.iov_base as int, iov.iov_len as int)[j as int] != 0);
                        assert(!segment_is_zero(mem@, iovecs@[i as int]));
                        return false;
                    }
                    j = j + 1;
                }
            },
        }
        i = i + 1;
    }
    true
}

} // verus!
