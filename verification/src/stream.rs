//! A vector as a stream of bytes.
//!
//! Loading through a vector reads one stream: the bytes of its segments, one
//! segment after the other. What a load of `n + k` bytes yields is what a load
//! of `n` bytes yields, followed by what a load of `k` bytes yields once the
//! first `n` bytes are skipped or discarded. Storing through a vector writes
//! one stream in the same way: storing `n + k` bytes is storing `n` bytes, and
//! then `k` bytes through what is left of the vector.

use crate::iov::{advanced, discard_front, iov_size, lemma_iov_size_front, lemma_iov_size_nonneg, Iovec};
use crate::mem::{gather, iov_is_zero, scatter, segment_is_zero, MemView};
use crate::misaligned::zeros;
use vstd::math::min;
use vstd::prelude::*;

verus! {

/// A load of no bytes yields nothing and succeeds.
pub proof fn lemma_gather_nothing(mem: MemView, iovecs: Seq<Iovec>)
    ensures
        gather(mem, iovecs, 0, 0) == (Seq::<u8>::empty(), true),
{
    if iovecs.len() > 0 {
        assert(mem.read(iovecs[0].iov_base as int, 0) =~= Seq::<u8>::empty());
    }
}

/// A range inside a range that the window covers is covered, and reads the
/// matching part.
pub proof fn lemma_read_part(mem: MemView, hva: int, len: int, from: int, part: int)
    requires
        0 <= from,
        0 <= part,
        from + part <= len,
        mem.covers(hva, len),
    ensures
        mem.covers(hva + from, part),
        mem.read(hva + from, part) == mem.read(hva, len).subrange(from, from + part),
{
    if part > 0 {
        assert(mem.read(hva + from, part) =~= mem.read(hva, len).subrange(from, from + part));
    } else {
        assert(mem.read(hva, len).subrange(from, from + part) =~= Seq::<u8>::empty());
    }
}

/// A load that yields all the `n + k` bytes that it was asked for is a load of
/// `n` bytes followed by a load of `k` bytes from `n` bytes further on.
pub proof fn lemma_gather_split(mem: MemView, iovecs: Seq<Iovec>, offset: int, n: int, k: int)
    requires
        0 <= offset,
        0 <= n,
        0 <= k,
        gather(mem, iovecs, offset, n + k).1,
        gather(mem, iovecs, offset, n + k).0.len() == n + k,
    ensures
        gather(mem, iovecs, offset, n) == (gather(mem, iovecs, offset, n + k).0.take(n), true),
        gather(mem, iovecs, offset + n, k) == (gather(mem, iovecs, offset, n + k).0.skip(n), true),
    decreases iovecs.len(),
{
    let whole = gather(mem, iovecs, offset, n + k);
    if iovecs.len() == 0 {
        assert(whole.0.take(n) =~= Seq::<u8>::empty());
        assert(whole.0.skip(n) =~= Seq::<u8>::empty());
    } else if offset > 0 && iovecs[0].iov_len <= offset {
        lemma_gather_split(mem, iovecs.skip(1), offset - iovecs[0].iov_len, n, k);
    } else {
        let next = iovecs.skip(1);
        let avail = iovecs[0].iov_len - offset;
        let hva = iovecs[0].iov_base + offset;
        let m = min(avail, n + k);
        if m >= n + k {
            // The first segment holds all of it.
            lemma_read_part(mem, hva, m, 0, n);
            lemma_read_part(mem, hva, m, n, k);
            assert(whole.0.take(n) =~= whole.0.subrange(0, n));
            assert(whole.0.skip(n) =~= whole.0.subrange(n, n + k));
            if offset + n > 0 && iovecs[0].iov_len <= offset + n {
                lemma_gather_nothing(mem, next);
            }
        } else {
            let rest = gather(mem, next, 0, n + k - avail);
            let here = mem.read(hva, avail);
            assert(whole.0 == here + rest.0);
            if n <= avail {
                lemma_read_part(mem, hva, avail, 0, n);
                lemma_read_part(mem, hva, avail, n, avail - n);
                assert(whole.0.take(n) =~= here.subrange(0, n));
                assert(whole.0.skip(n) =~= here.subrange(n, avail) + rest.0);
                if n == avail {
                    assert(here.subrange(n, avail) + rest.0 =~= rest.0);
                    if offset + n == 0 {
                        assert(mem.read(hva, 0) + rest.0 =~= rest.0);
                    }
                }
            } else {
                lemma_gather_split(mem, next, 0, n - avail, k);
                assert(whole.0.take(n) =~= here + rest.0.take(n - avail));
                assert(whole.0.skip(n) =~= rest.0.skip(n - avail));
            }
        }
    }
}

/// Loading from what is left after the first `n` bytes are discarded is
/// loading with the first `n` bytes skipped.
pub proof fn lemma_gather_discarded(mem: MemView, iovecs: Seq<Iovec>, n: int, k: int)
    requires
        0 <= n,
        0 <= k,
        discard_front(iovecs, n) is Some,
    ensures
        gather(mem, discard_front(iovecs, n)->0, 0, k) == gather(mem, iovecs, n, k),
    decreases iovecs.len(),
{
    if iovecs.len() > 0 {
        if iovecs[0].iov_len > n {
            let rest = discard_front(iovecs, n)->0;
            assert(rest[0] == advanced(iovecs[0], n));
            assert(rest.skip(1) =~= iovecs.skip(1));
        } else {
            lemma_gather_discarded(mem, iovecs.skip(1), n - iovecs[0].iov_len, k);
            if n == 0 {
                let rest = discard_front(iovecs, n)->0;
                assert(mem.read(iovecs[0].iov_base as int, 0) =~= Seq::<u8>::empty());
                if k == 0 {
                    lemma_gather_nothing(mem, rest);
                } else {
                    let later = gather(mem, iovecs.skip(1), 0, k);
                    assert(Seq::<u8>::empty() + later.0 =~= later.0);
                }
            }
        }
    }
}

/// Where a byte can be loaded after the first `n` bytes are skipped, the first
/// `n` bytes can be discarded.
pub proof fn lemma_discard_before_byte(mem: MemView, iovecs: Seq<Iovec>, n: int, k: int)
    requires
        0 <= n,
        0 < k,
        gather(mem, iovecs, n, k).1,
        gather(mem, iovecs, n, k).0.len() == k,
    ensures
        discard_front(iovecs, n) is Some,
    decreases iovecs.len(),
{
    if iovecs.len() > 0 {
        if iovecs[0].iov_len <= n {
            if n == 0 {
                assert(mem.read(iovecs[0].iov_base as int, 0) =~= Seq::<u8>::empty());
                let later = gather(mem, iovecs.skip(1), 0, k);
                assert(Seq::<u8>::empty() + later.0 =~= later.0);
            }
            lemma_discard_before_byte(mem, iovecs.skip(1), n - iovecs[0].iov_len, k);
        }
    }
}

/// Storing two runs of bytes one behind the other is storing them as one.
pub proof fn lemma_write_joined(mem: MemView, hva: int, first: Seq<u8>, second: Seq<u8>)
    requires
        mem.covers(hva, (first.len() + second.len()) as int),
    ensures
        mem.write(hva, first).write(hva + first.len(), second) == mem.write(hva, first + second),
        mem.write(hva, first).base == mem.base,
        mem.write(hva, first).bytes.len() == mem.bytes.len(),
        mem.write(hva, first).covers(hva + first.len(), second.len() as int),
{
    if first.len() == 0 {
        assert(first + second =~= second);
    } else if second.len() == 0 {
        assert(first + second =~= first);
    } else {
        assert(mem.write(hva, first).write(hva + first.len(), second) =~= mem.write(
            hva,
            first + second,
        ));
    }
}

/// Where bytes can be stored through a vector, nothing can be discarded from
/// its front but empty segments, and storing through what is left is storing
/// through the vector.
pub proof fn lemma_scatter_from_start(mem: MemView, iovecs: Seq<Iovec>, buf: Seq<u8>)
    requires
        buf.len() > 0,
        scatter(mem, iovecs, buf).1 == Some(buf.len() as int),
    ensures
        discard_front(iovecs, 0) is Some,
        scatter(mem, discard_front(iovecs, 0)->0, buf) == scatter(mem, iovecs, buf),
    decreases iovecs.len(),
{
    if iovecs.len() > 0 {
        if iovecs[0].iov_len > 0 {
            assert(advanced(iovecs[0], 0) == iovecs[0]);
            assert(seq![iovecs[0]] + iovecs.skip(1) =~= iovecs);
        } else {
            assert(buf.take(0) =~= Seq::<u8>::empty());
            assert(buf.skip(0) =~= buf);
            lemma_scatter_from_start(mem, iovecs.skip(1), buf);
        }
    }
}

/// Storing `first + second` in full through a vector is storing `first`, and
/// then `second` through what is left of the vector once the bytes of `first`
/// are discarded.
pub proof fn lemma_scatter_split(
    mem: MemView,
    iovecs: Seq<Iovec>,
    first: Seq<u8>,
    second: Seq<u8>,
)
    requires
        scatter(mem, iovecs, first + second).1 == Some((first.len() + second.len()) as int),
    ensures
        scatter(mem, iovecs, first).1 == Some(first.len() as int),
        second.len() == 0 ==> scatter(mem, iovecs, first).0 == scatter(
            mem,
            iovecs,
            first + second,
        ).0,
        second.len() > 0 ==> {
            &&& discard_front(iovecs, first.len() as int) is Some
            &&& scatter(
                scatter(mem, iovecs, first).0,
                discard_front(iovecs, first.len() as int)->0,
                second,
            ) == (scatter(mem, iovecs, first + second).0, Some(second.len() as int))
        },
    decreases iovecs.len(),
{
    let whole = first + second;
    let n = first.len() as int;
    let k = second.len() as int;
    if k == 0 {
        assert(whole =~= first);
    } else if iovecs.len() == 0 {
    } else {
        let base = iovecs[0].iov_base as int;
        let len = iovecs[0].iov_len as int;
        let next = iovecs.skip(1);
        let m = min(len, n + k);
        let stored = mem.write(base, whole.take(m));
        assert(mem.covers(base, m));
        if n <= len {
            // The first segment takes all of `first`.
            assert(first.take(n) =~= first);
            let m1 = mem.write(base, first);
            assert(scatter(mem, iovecs, first) == (m1, Some(n)));
            if len > n {
                let share = min(len - n, k);
                let rest = discard_front(iovecs, n)->0;
                assert(rest[0] == advanced(iovecs[0], n));
                assert(rest.skip(1) =~= next);
                assert(whole.take(m) =~= first + second.take(share));
                lemma_write_joined(mem, base, first, second.take(share));
                if share < k {
                    assert(second.skip(share) =~= whole.skip(m));
                } else {
                    assert(second.take(share) =~= second);
                }
            } else {
                assert(whole.take(m) =~= first);
                assert(whole.skip(m) =~= second);
                lemma_scatter_from_start(stored, next, second);
            }
        } else {
            assert(whole.take(m) =~= first.take(len));
            assert(whole.skip(m) =~= first.skip(len) + second);
            lemma_scatter_split(stored, next, first.skip(len), second);
        }
    }
}

/// A vector whose segments are all zero yields zeros, as many as it is asked
/// for and describes.
pub proof fn lemma_gather_zeros(mem: MemView, iovecs: Seq<Iovec>, want: int)
    requires
        iov_is_zero(mem, iovecs),
        0 <= want <= iov_size(iovecs),
    ensures
        gather(mem, iovecs, 0, want) == (zeros(want), true),
    decreases iovecs.len(),
{
    if iovecs.len() == 0 {
        assert(zeros(want) =~= Seq::<u8>::empty());
    } else {
        let base = iovecs[0].iov_base as int;
        let len = iovecs[0].iov_len as int;
        let m = min(len, want);
        assert(segment_is_zero(mem, iovecs[0]));
        lemma_read_part(mem, base, len, 0, m);
        let here = mem.read(base, m);
        assert(here =~= zeros(m)) by {
            assert forall|j: int| 0 <= j < m implies here[j] == 0 by {
                assert(mem.read(base, len)[j] == 0);
            }
        }
        if m < want {
            lemma_iov_size_front(iovecs);
            assert forall|i: int| 0 <= i < iovecs.skip(1).len() implies segment_is_zero(
                mem,
                #[trigger] iovecs.skip(1)[i],
            ) by {
                assert(segment_is_zero(mem, iovecs[i + 1]));
            }
            lemma_gather_zeros(mem, iovecs.skip(1), want - len);
            assert(zeros(len) + zeros(want - len) =~= zeros(want));
        }
    }
}

/// Two segments share no byte.
pub open spec fn segments_apart(a: Iovec, b: Iovec) -> bool {
    ||| a.iov_len == 0
    ||| b.iov_len == 0
    ||| a.iov_base + a.iov_len <= b.iov_base
    ||| b.iov_base + b.iov_len <= a.iov_base
}

/// No two segments of the vector share a byte.
pub open spec fn iov_apart(iovecs: Seq<Iovec>) -> bool {
    forall|i: int, j: int|
        0 <= i < j < iovecs.len() ==> segments_apart(#[trigger] iovecs[i], #[trigger] iovecs[j])
}

/// What has been stored at an address is read there.
pub proof fn lemma_read_written(mem: MemView, hva: int, data: Seq<u8>)
    requires
        mem.covers(hva, data.len() as int),
    ensures
        mem.write(hva, data).covers(hva, data.len() as int),
        mem.write(hva, data).read(hva, data.len() as int) == data,
{
    if data.len() > 0 {
        assert(mem.write(hva, data).read(hva, data.len() as int) =~= data);
    } else {
        assert(data =~= Seq::<u8>::empty());
    }
}

/// Storing at an address leaves a range that it does not touch as it was.
pub proof fn lemma_write_elsewhere(mem: MemView, hva: int, data: Seq<u8>, at: int, len: int)
    requires
        mem.covers(hva, data.len() as int),
        mem.covers(at, len),
        0 <= len,
        data.len() == 0 || len == 0 || at + len <= hva || hva + data.len() <= at,
    ensures
        mem.write(hva, data).covers(at, len),
        mem.write(hva, data).read(at, len) == mem.read(at, len),
{
    if data.len() > 0 && len > 0 {
        assert(mem.write(hva, data).read(at, len) =~= mem.read(at, len));
    }
}

/// Storing through a vector leaves a range that no segment of the vector
/// touches as it was.
pub proof fn lemma_scatter_elsewhere(
    mem: MemView,
    iovecs: Seq<Iovec>,
    buf: Seq<u8>,
    kept: Iovec,
)
    requires
        mem.covers(kept.iov_base as int, kept.iov_len as int),
        forall|i: int| 0 <= i < iovecs.len() ==> segments_apart(kept, #[trigger] iovecs[i]),
    ensures
        scatter(mem, iovecs, buf).0.covers(kept.iov_base as int, kept.iov_len as int),
        scatter(mem, iovecs, buf).0.read(kept.iov_base as int, kept.iov_len as int) == mem.read(
            kept.iov_base as int,
            kept.iov_len as int,
        ),
    decreases iovecs.len(),
{
    if iovecs.len() > 0 {
        let n = min(iovecs[0].iov_len as int, buf.len() as int);
        if mem.covers(iovecs[0].iov_base as int, n) {
            let stored = mem.write(iovecs[0].iov_base as int, buf.take(n));
            assert(segments_apart(kept, iovecs[0]));
            lemma_write_elsewhere(
                mem,
                iovecs[0].iov_base as int,
                buf.take(n),
                kept.iov_base as int,
                kept.iov_len as int,
            );
            if n < buf.len() {
                assert forall|i: int| 0 <= i < iovecs.skip(1).len() implies segments_apart(
                    kept,
                    #[trigger] iovecs.skip(1)[i],
                ) by {
                    assert(segments_apart(kept, iovecs[i + 1]));
                }
                lemma_scatter_elsewhere(stored, iovecs.skip(1), buf.skip(n), kept);
            }
        }
    }
}

/// What has been stored in full through a vector whose segments share no byte
/// is what loading through the vector yields.
pub proof fn lemma_gather_scattered(mem: MemView, iovecs: Seq<Iovec>, buf: Seq<u8>)
    requires
        iov_apart(iovecs),
        scatter(mem, iovecs, buf).1 == Some(buf.len() as int),
    ensures
        gather(scatter(mem, iovecs, buf).0, iovecs, 0, buf.len() as int) == (buf, true),
    decreases iovecs.len(),
{
    let after = scatter(mem, iovecs, buf).0;
    if iovecs.len() == 0 {
        assert(buf =~= Seq::<u8>::empty());
    } else {
        let base = iovecs[0].iov_base as int;
        let len = iovecs[0].iov_len as int;
        let n = min(len, buf.len() as int);
        let stored = mem.write(base, buf.take(n));
        lemma_read_written(mem, base, buf.take(n));
        if n >= buf.len() {
            assert(buf.take(n) =~= buf);
        } else {
            let next = iovecs.skip(1);
            let later = buf.skip(n);
            assert forall|i: int, j: int| 0 <= i < j < next.len() implies segments_apart(
                #[trigger] next[i],
                #[trigger] next[j],
            ) by {
                assert(segments_apart(iovecs[i + 1], iovecs[j + 1]));
            }
            assert forall|i: int| 0 <= i < next.len() implies segments_apart(
                iovecs[0],
                #[trigger] next[i],
            ) by {
                assert(segments_apart(iovecs[0], iovecs[i + 1]));
            }
            lemma_scatter_elsewhere(stored, next, later, iovecs[0]);
            lemma_gather_scattered(stored, next, later);
            assert(buf.take(n) + later =~= buf);
        }
    }
}

} // verus!
