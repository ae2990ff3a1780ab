//! Scatter/gather vectors.

use vstd::math::min;
use vstd::prelude::*;

verus! {

/// One segment of a scatter/gather vector: `iov_len` bytes of host memory that
/// start at the host virtual address `iov_base`.
#[derive(Debug, Clone, Copy, PartialEq, Eq, Structural)]
pub struct Iovec {
    pub iov_base: u64,
    pub iov_len: u64,
}

impl Iovec {
    pub fn new(base: u64, len: u64) -> (iov: Self)
        ensures
            iov == (Iovec { iov_base: base, iov_len: len }),
    {
        Iovec { iov_base: base, iov_len: len }
    }

    /// The empty segment at address zero.
    pub fn is_none(&self) -> (none: bool)
        ensures
            none == (self.iov_base == 0 && self.iov_len == 0),
    {
        self.iov_base == 0 && self.iov_len == 0
    }

    /// The segment does not wrap around the end of the address space.
    pub open spec fn fits(self) -> bool {
        self.iov_base + self.iov_len <= u64::MAX
    }
}

/// Number of bytes that a vector describes: the sum of its segment lengths.
pub open spec fn iov_size(iovecs: Seq<Iovec>) -> int
    decreases iovecs.len(),
{
    if iovecs.len() == 0 {
        0
    } else {
        iov_size(iovecs.drop_last()) + iovecs.last().iov_len
    }
}

/// Every segment of the vector stays inside the address space.
pub open spec fn iov_fits(iovecs: Seq<Iovec>) -> bool {
    forall|i: int| 0 <= i < iovecs.len() ==> (#[trigger] iovecs[i]).fits()
}

pub proof fn lemma_iov_size_nonneg(iovecs: Seq<Iovec>)
    ensures
        iov_size(iovecs) >= 0,
    decreases iovecs.len(),
{
    if iovecs.len() > 0 {
        lemma_iov_size_nonneg(iovecs.drop_last());
    }
}

/// The size of a prefix grows by the length of the segment that is added.
pub proof fn lemma_iov_size_take(iovecs: Seq<Iovec>, i: int)
    requires
        0 <= i < iovecs.len(),
    ensures
        iov_size(iovecs.take(i + 1)) == iov_size(iovecs.take(i)) + iovecs[i].iov_len,
        0 <= iov_size(iovecs.take(i)),
{
    assert(iovecs.take(i + 1).drop_last() =~= iovecs.take(i));
    lemma_iov_size_nonneg(iovecs.take(i));
}

/// The size of a vector is the size of any prefix plus that of the rest.
pub proof fn lemma_iov_size_split(iovecs: Seq<Iovec>, i: int)
    requires
        0 <= i <= iovecs.len(),
    ensures
        iov_size(iovecs) == iov_size(iovecs.take(i)) + iov_size(iovecs.skip(i)),
    decreases iovecs.len() - i,
{
    if i == iovecs.len() {
        assert(iovecs.take(i) =~= iovecs);
        assert(iovecs.skip(i) =~= Seq::<Iovec>::empty());
    } else {
        let n = iovecs.len() as int;
        lemma_iov_size_split(iovecs.drop_last(), i);
        assert(iovecs.drop_last().take(i) =~= iovecs.take(i));
        assert(iovecs.skip(i).drop_last() =~= iovecs.drop_last().skip(i));
        assert(iovecs.skip(i).last() == iovecs.last());
    }
}

/// Sum of the segment lengths of `iovecs`.
pub fn get_iov_size(iovecs: &[Iovec]) -> (sum: u64)
    requires
        iov_size(iovecs@) <= u64::MAX,
    ensures
        sum == iov_size(iovecs@),
{
    let mut sum: u64 = 0;
    let mut i: usize = 0;
    while i < iovecs.len()
        invariant
            0 <= i <= iovecs.len(),
            sum == iov_size(iovecs@.take(i as int)),
            iov_size(iovecs@) <= u64::MAX,
        decreases iovecs.len() - i,
    {
        proof {
            lemma_iov_size_take(iovecs@, i as int);
            lemma_iov_size_split(iovecs@, i as int + 1);
            lemma_iov_size_nonneg(iovecs@.skip(i as int + 1));
        }
        sum = sum + iovecs[i].iov_len;
        i = i + 1;
    }
    proof {
        assert(iovecs@.take(i as int) =~= iovecs@);
    }
    sum
}

/// The size of a vector is the length of its first segment plus the size of
/// the segments after it.
pub proof fn lemma_iov_size_front(iovecs: Seq<Iovec>)
    requires
        iovecs.len() > 0,
    ensures
        iov_size(iovecs) == iovecs[0].iov_len + iov_size(iovecs.skip(1)),
{
    lemma_iov_size_split(iovecs, 1);
    assert(iovecs.take(1).drop_last() =~= Seq::<Iovec>::empty());
    assert(iov_size(iovecs.take(1).drop_last()) == 0);
}

/// A longer prefix is not smaller.
pub proof fn lemma_iov_size_mono(iovecs: Seq<Iovec>, i: int, j: int)
    requires
        0 <= i <= j <= iovecs.len(),
    ensures
        0 <= iov_size(iovecs.take(i)) <= iov_size(iovecs.take(j)) <= iov_size(iovecs),
    decreases j - i,
{
    lemma_iov_size_nonneg(iovecs.take(i));
    if i < j {
        lemma_iov_size_take(iovecs, i);
        lemma_iov_size_mono(iovecs, i + 1, j);
    } else {
        lemma_iov_size_split(iovecs, j);
        lemma_iov_size_nonneg(iovecs.skip(j));
    }
}

/// The segment `iov` without its first `by` bytes.
pub open spec fn advanced(iov: Iovec, by: int) -> Iovec {
    Iovec { iov_base: (iov.iov_base + by) as u64, iov_len: (iov.iov_len - by) as u64 }
}

/// Segment `k` of the vector holds the byte at position `size`.
pub open spec fn holds_byte(iovecs: Seq<Iovec>, k: int, size: int) -> bool {
    &&& 0 <= k < iovecs.len()
    &&& iov_size(iovecs.take(k)) <= size < iov_size(iovecs.take(k + 1))
}

/// What is left of a vector without its first `size` bytes: the segment that
/// holds the first byte kept, shortened to start at it, and the segments after
/// it. There is nothing left when the vector describes no more than `size`
/// bytes, and no answer when the first byte kept has no 64-bit address.
pub open spec fn discard_front(iovecs: Seq<Iovec>, size: int) -> Option<Seq<Iovec>>
    decreases iovecs.len(),
{
    if iovecs.len() == 0 {
        None
    } else if iovecs[0].iov_len > size {
        if iovecs[0].iov_base + size > u64::MAX {
            None
        } else {
            Some(seq![advanced(iovecs[0], size)] + iovecs.skip(1))
        }
    } else {
        discard_front(iovecs.skip(1), size - iovecs[0].iov_len)
    }
}

/// Discard "size" bytes of the front of iovec.
///
/// On success the result is the index of the segment that holds the first byte
/// kept. That segment is shortened in place to start at this byte, so the
/// vector from this index on describes what is left. `None`, with the vector
/// untouched, when the vector describes no more than `size` bytes, or when the
/// first byte kept has no 64-bit address.
pub fn iov_discard_front_direct(iovec: &mut [Iovec], size: u64) -> (res: Option<usize>)
    ensures
        res is None <==> discard_front(old(iovec)@, size as int) is None,
        res matches Some(k) ==> discard_front(old(iovec)@, size as int) == Some(
            final(iovec)@.skip(k as int),
        ),
        match res {
            Some(k) => {
                &&& holds_byte(old(iovec)@, k as int, size as int)
                &&& old(iovec)@[k as int].iov_base + (size - iov_size(old(iovec)@.take(k as int)))
                    <= u64::MAX
                &&& final(iovec)@ == old(iovec)@.update(
                    k as int,
                    advanced(
                        old(iovec)@[k as int],
                        size - iov_size(old(iovec)@.take(k as int)),
                    ),
                )
            },
            None => {
                &&& final(iovec)@ == old(iovec)@
                &&& forall|k: int| #[trigger]
                    holds_byte(old(iovec)@, k, size as int) ==> old(iovec)@[k].iov_base + (size
                        - iov_size(old(iovec)@.take(k))) > u64::MAX
            },
        },
{
    let count: usize = iovec.len();
    let mut rest: u64 = size;
    let mut i: usize = 0;
    proof {
        assert(iovec@.take(0) =~= Seq::<Iovec>::empty());
        assert(iovec@.skip(0) =~= iovec@);
    }
    while i < count
        invariant
            0 <= i <= count,
            count == iovec@.len(),
            iovec@ == old(iovec)@,
            rest == size - iov_size(iovec@.take(i as int)),
            discard_front(old(iovec)@, size as int) == discard_front(
                iovec@.skip(i as int),
                rest as int,
            ),
        decreases count - i,
    {
        let iov = iovec[i];
        proof {
            lemma_iov_size_take(iovec@, i as int);
            assert(iovec@.skip(i as int)[0] == iov);
            assert(iovec@.skip(i as int).skip(1) =~= iovec@.skip(i + 1));
        }
        if iov.iov_len > rest {
            proof {
                assert forall|k: int| #[trigger] holds_byte(old(iovec)@, k, size as int) implies k
                    == i by {
                    if k < i {
                        lemma_iov_size_mono(old(iovec)@, k + 1, i as int);
                    } else if k > i {
                        lemma_iov_size_mono(old(iovec)@, i + 1, k);
                    }
                }
            }
            match iov.iov_base.checked_add(rest) {
                None => {
                    return None;
                },
                Some(base) => {
                    iovec[i] = Iovec { iov_base: base, iov_len: iov.iov_len - rest };
                    proof {
                        assert(iovec@.skip(i as int) =~= seq![advanced(iov, rest as int)] + old(
                            iovec,
                        )@.skip(i + 1));
                    }
                    return Some(i);
                },
            }
        }
        rest = rest - iov.iov_len;
        i = i + 1;
    }
    proof {
        assert(iovec@.take(i as int) =~= iovec@);
        assert(iovec@.skip(i as int) =~= Seq::<Iovec>::empty());
        assert forall|k: int| #[trigger] holds_byte(old(iovec)@, k, size as int) implies false by {
            lemma_iov_size_mono(old(iovec)@, k + 1, count as int);
        }
    }
    None
}

/// The two halves of a vector cut after its first `size` bytes.
///
/// Whole segments go to the first half while bytes are still owed; the segment
/// that holds more than is owed is cut in two; once nothing is owed, every
/// further segment goes to the second half, empty ones included.
pub open spec fn split_at_byte(iovecs: Seq<Iovec>, size: int) -> (Seq<Iovec>, Seq<Iovec>)
    decreases iovecs.len(),
{
    if iovecs.len() == 0 {
        (Seq::empty(), Seq::empty())
    } else if size == 0 {
        (Seq::empty(), iovecs)
    } else if iovecs[0].iov_len > size {
        (
            seq![Iovec { iov_base: iovecs[0].iov_base, iov_len: size as u64 }],
            seq![advanced(iovecs[0], size)] + iovecs.skip(1),
        )
    } else {
        let rest = split_at_byte(iovecs.skip(1), size - iovecs[0].iov_len);
        (seq![iovecs[0]] + rest.0, rest.1)
    }
}

/// The halves of a cut hold the bytes of the whole: the first half the first
/// `size` of them, or all where there are fewer.
pub proof fn lemma_split_sizes(iovecs: Seq<Iovec>, size: int)
    requires
        0 <= size,
    ensures
        iov_size(split_at_byte(iovecs, size).0) == min(size, iov_size(iovecs)),
        iov_size(split_at_byte(iovecs, size).0) + iov_size(split_at_byte(iovecs, size).1)
            == iov_size(iovecs),
    decreases iovecs.len(),
{
    lemma_iov_size_nonneg(iovecs);
    if iovecs.len() == 0 {
    } else if size == 0 {
    } else {
        lemma_iov_size_front(iovecs);
        lemma_iov_size_nonneg(iovecs.skip(1));
        let halves = split_at_byte(iovecs, size);
        if iovecs[0].iov_len > size {
            lemma_iov_size_front(halves.0);
            assert(halves.0.skip(1) =~= Seq::<Iovec>::empty());
            lemma_iov_size_front(halves.1);
            assert(halves.1.skip(1) =~= iovecs.skip(1));
        } else {
            lemma_split_sizes(iovecs.skip(1), size - iovecs[0].iov_len);
            lemma_iov_size_front(halves.0);
            assert(halves.0.skip(1) =~= split_at_byte(
                iovecs.skip(1),
                size - iovecs[0].iov_len,
            ).0);
        }
    }
}

/// Cuts a vector in two after its first `size` bytes.
pub fn iovecs_split(iovecs: Vec<Iovec>, size: u64) -> (halves: (Vec<Iovec>, Vec<Iovec>))
    requires
        iov_fits(iovecs@),
    ensures
        halves.0@ == split_at_byte(iovecs@, size as int).0,
        halves.1@ == split_at_byte(iovecs@, size as int).1,
        iov_size(halves.0@) == min(size as int, iov_size(iovecs@)),
        iov_size(halves.0@) + iov_size(halves.1@) == iov_size(iovecs@),
{
    let mut begin: Vec<Iovec> = Vec::new();
    let mut end: Vec<Iovec> = Vec::new();
    let mut owed: u64 = size;
    let mut i: usize = 0;
    proof {
        assert(iovecs@.skip(0) =~= iovecs@);
        assert(begin@ + split_at_byte(iovecs@, size as int).0 =~= split_at_byte(
            iovecs@,
            size as int,
        ).0);
        assert(end@ + split_at_byte(iovecs@, size as int).1 =~= split_at_byte(
            iovecs@,
            size as int,
        ).1);
    }
    while i < iovecs.len()
        invariant
            0 <= i <= iovecs@.len(),
            iov_fits(iovecs@),
            split_at_byte(iovecs@, size as int).0 == begin@ + split_at_byte(
                iovecs@.skip(i as int),
                owed as int,
            ).0,
            split_at_byte(iovecs@, size as int).1 == end@ + split_at_byte(
                iovecs@.skip(i as int),
                owed as int,
            ).1,
        decreases iovecs@.len() - i,
    {
        let iov = iovecs[i];
        let ghost here = split_at_byte(iovecs@.skip(i as int), owed as int);
        let ghost next = iovecs@.skip(i + 1);
        let ghost begin0 = begin@;
        let ghost end0 = end@;
        proof {
            assert(iovecs@.skip(i as int)[0] == iov);
            assert(iovecs@.skip(i as int).skip(1) =~= next);
            assert(iov.fits());
        }
        if owed == 0 {
            end.push(iov);
            proof {
                assert(split_at_byte(next, 0).1 =~= next);
                assert(split_at_byte(next, 0).0 =~= Seq::<Iovec>::empty());
                assert(end@ + next =~= end0 + here.1) by {
                    assert(here.1 =~= seq![iov] + next);
                }
            }
        } else if iov.iov_len > owed {
            begin.push(Iovec::new(iov.iov_base, owed));
            end.push(Iovec::new(iov.iov_base + owed, iov.iov_len - owed));
            proof {
                assert(split_at_byte(next, 0).1 =~= next);
                assert(split_at_byte(next, 0).0 =~= Seq::<Iovec>::empty());
                assert(begin@ + split_at_byte(next, 0).0 =~= begin0 + here.0);
                assert(end@ + split_at_byte(next, 0).1 =~= end0 + here.1);
            }
            owed = 0;
        } else {
            owed = owed - iov.iov_len;
            begin.push(iov);
            proof {
                let rest = split_at_byte(next, owed as int);
                assert(begin@ + rest.0 =~= begin0 + here.0);
            }
        }
        i = i + 1;
    }
    proof {
        assert(iovecs@.skip(i as int) =~= Seq::<Iovec>::empty());
        assert(begin@ + Seq::<Iovec>::empty() =~= begin@);
        assert(end@ + Seq::<Iovec>::empty() =~= end@);
        lemma_split_sizes(iovecs@, size as int);
    }
    (begin, end)
}

} // verus!
