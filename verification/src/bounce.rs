//! Geometry of misaligned direct I/O.
//!
//! Direct I/O moves whole alignment cells. A request whose byte range
//! `[low, high)` is not made of whole cells is served through a bounce buffer:
//! the range is widened to `[low_align, high_align)`, and the widened range is
//! walked in windows of at most one buffer length.

use crate::num_ops::{
    lemma_multiples_add, lemma_multiples_apart, lemma_next_multiple, lemma_round_down, lemma_round_up, round_down, round_up,
    spec_round_down, spec_round_up,
};
use vstd::math::{max, min};
use vstd::prelude::*;

verus! {

/// Max bytes of bounce buffer for misaligned IO.
pub const MAX_LEN_BOUNCE_BUFF: u64 = 0x10_0000;

/// Length of the bounce buffer for a request of `nbytes` bytes: room for the
/// request and one cell on either side, in whole cells, capped.
pub open spec fn spec_bounce_len(nbytes: int, align: int) -> int {
    min(spec_round_down(nbytes + 2 * align, align), MAX_LEN_BOUNCE_BUFF as int)
}

/// Length of the bounce buffer; `None` when the alignment is zero or
/// `nbytes + 2 * req_align` does not fit in 64 bits.
pub fn bounce_len(nbytes: u64, req_align: u32) -> (res: Option<u64>)
    ensures
        res is None <==> (req_align == 0 || nbytes + 2 * req_align > u64::MAX),
        res matches Some(len) ==> len == spec_bounce_len(nbytes as int, req_align as int) && 0
            < len <= MAX_LEN_BOUNCE_BUFF,
{
    let align: u64 = req_align as u64;
    let padded: u64 = match nbytes.checked_add(align * 2) {
        Some(v) => v,
        None => {
            return None;
        },
    };
    match round_down(padded, align) {
        None => None,
        Some(max_len) => {
            proof {
                lemma_round_down(padded as int, align as int);
                lemma_round_down(2 * align, align as int);
                lemma_multiples_apart(0, max_len as int, align as int);
            }
            if max_len < MAX_LEN_BOUNCE_BUFF {
                Some(max_len)
            } else {
                Some(MAX_LEN_BOUNCE_BUFF)
            }
        },
    }
}

/// The byte range of a request and its widening to whole cells.
#[derive(Debug, Clone, Copy, PartialEq, Eq, Structural)]
pub struct Span {
    /// First byte of the request.
    pub low: u64,
    /// One past the last byte of the request.
    pub high: u64,
    /// `low` rounded down to a cell boundary.
    pub low_align: u64,
    /// `high` rounded up to a cell boundary.
    pub high_align: u64,
    /// Size of a cell.
    pub align: u64,
    /// Largest number of bytes moved at once.
    pub window: u64,
}

/// One step of the walk over a widened range.
#[derive(Debug, Clone, Copy, PartialEq, Eq, Structural)]
pub struct Window {
    /// File offset of the window.
    pub offset: u64,
    /// Length of the window.
    pub len: u64,
    /// First byte of the request inside the window.
    pub real_offset: u64,
    /// One past the last byte of the request inside the window.
    pub real_high: u64,
}

/// The span of the request `(offset, nbytes)` for cells of `align` bytes and
/// windows of `window` bytes. There is none when the alignment is zero, when
/// the widened range does not fit in 64 bits, or when a window is not a whole
/// number of cells.
pub open spec fn spec_span(offset: u64, nbytes: u64, align: u64, window: u64) -> Option<Span> {
    if align == 0 || offset + nbytes + align - 1 > u64::MAX || window == 0 || window % align != 0 {
        None
    } else {
        Some(
            Span {
                low: offset,
                high: (offset + nbytes) as u64,
                low_align: spec_round_down(offset as int, align as int) as u64,
                high_align: spec_round_up(offset + nbytes, align as int) as u64,
                align,
                window,
            },
        )
    }
}

impl Span {
    /// The fields fit together as `spec_span` makes them.
    pub open spec fn valid(self) -> bool {
        &&& self.low <= self.high
        &&& spec_span(self.low, (self.high - self.low) as u64, self.align, self.window) == Some(
            self,
        )
    }

    /// A window starts at `at`: a whole number of full windows behind the start
    /// of the widened range, on a cell boundary inside the range, or at its
    /// start where the range is empty.
    pub open spec fn starts_window(self, at: u64) -> bool {
        &&& at % self.align == 0
        &&& self.low_align <= at
        &&& (at - self.low_align) % (self.window as int) == 0
        &&& at < self.high_align || at == self.low_align
    }

    /// The window that starts at `at`.
    pub open spec fn spec_window_at(self, at: u64) -> Window {
        let len = min(self.high_align - at, self.window as int);
        Window {
            offset: at,
            len: len as u64,
            real_offset: max(at as int, self.low as int) as u64,
            real_high: min(at + len, self.high as int) as u64,
        }
    }

    /// The request ends in the cell in which it starts.
    pub open spec fn same_section(self) -> bool {
        self.low_align + self.align >= self.high
    }

    /// A write has to load the first cell: the request starts inside it.
    pub open spec fn needs_head(self) -> bool {
        self.low > self.low_align
    }

    /// A write has to load the last cell: the request ends inside it, and the
    /// head has not loaded that cell already.
    pub open spec fn needs_tail(self) -> bool {
        !(self.same_section() && self.needs_head()) && self.high_align > self.high
    }

    /// Widens the request `(offset, nbytes)`.
    pub fn new(offset: u64, nbytes: u64, align: u64, window: u64) -> (res: Option<Span>)
        ensures
            res == spec_span(offset, nbytes, align, window),
            res matches Some(span) ==> span.valid(),
    {
        if align == 0 || window == 0 || window % align != 0 {
            return None;
        }
        let high: u64 = match offset.checked_add(nbytes) {
            Some(v) => v,
            None => {
                return None;
            },
        };
        let high_align: u64 = match round_up(high, align) {
            Some(v) => v,
            None => {
                return None;
            },
        };
        let low_align: u64 = match round_down(offset, align) {
            Some(v) => v,
            None => {
                return None;
            },
        };
        proof {
            lemma_round_down(offset as int, align as int);
            lemma_round_up(high as int, align as int);
        }
        Some(Span { low: offset, high, low_align, high_align, align, window })
    }

    /// The window that starts at `at`.
    pub fn window_at(&self, at: u64) -> (w: Window)
        requires
            self.valid(),
            self.starts_window(at),
        ensures
            w == self.spec_window_at(at),
            self.inside(w),
    {
        proof {
            lemma_window(*self, at);
        }
        let left: u64 = self.high_align - at;
        let len: u64 = if left < self.window {
            left
        } else {
            self.window
        };
        let real_offset: u64 = if at > self.low {
            at
        } else {
            self.low
        };
        let end: u64 = at + len;
        let real_high: u64 = if end < self.high {
            end
        } else {
            self.high
        };
        Window { offset: at, len, real_offset, real_high }
    }

    /// The window lies inside the widened range, and the part of the request in
    /// it lies inside the window.
    pub open spec fn inside(self, w: Window) -> bool {
        &&& self.low_align <= w.offset <= w.real_offset <= w.real_high <= w.offset + w.len
            <= self.high_align
        &&& self.low <= w.real_offset
        &&& w.real_high <= self.high
        &&& w.len <= self.window
        &&& w.len % self.align == 0
    }

    /// The window at `at` is the last one.
    pub open spec fn ends_at(self, w: Window) -> bool {
        w.offset + w.len >= self.high_align
    }
}

/// Where the widening of a valid span lies.
pub proof fn lemma_span(span: Span)
    requires
        span.valid(),
    ensures
        0 < span.align <= span.window,
        span.window % span.align == 0,
        span.low_align % span.align == 0,
        span.high_align % span.align == 0,
        span.low_align <= span.low < span.low_align + span.align,
        span.high <= span.high_align < span.high + span.align,
        span.low_align <= span.high_align,
        (span.high_align - span.low_align) % (span.align as int) == 0,
        span.starts_window(span.low_align),
{
    let a = span.align as int;
    lemma_round_down(span.low as int, a);
    lemma_round_up(span.high as int, a);
    lemma_multiples_apart(0, span.window as int, a);
    lemma_multiples_apart(span.low_align as int, span.high_align as int, a);
    vstd::arithmetic::div_mod::lemma_small_mod(0, span.window as nat);
}

/// Shape of the window that starts at `at`.
///
/// It lies inside the widened range and holds whole cells. It holds the part of
/// the request between its borders, which is not empty unless the request is.
/// Where it does not reach the end of the widened range it is a full window,
/// and the next window may start at its end.
pub proof fn lemma_window(span: Span, at: u64)
    requires
        span.valid(),
        span.starts_window(at),
    ensures
        span.inside(span.spec_window_at(at)),
        span.spec_window_at(at).offset == at,
        span.high_align > span.low_align ==> span.spec_window_at(at).len >= span.align,
        span.high > span.low ==> span.spec_window_at(at).real_high > span.spec_window_at(
            at,
        ).real_offset,
        at == span.low_align ==> span.spec_window_at(at).real_offset == span.low,
        at > span.low_align ==> span.spec_window_at(at).real_offset == at,
        span.ends_at(span.spec_window_at(at)) <==> span.spec_window_at(at).real_high == span.high,
        span.ends_at(span.spec_window_at(at)) ==> at + span.spec_window_at(at).len
            == span.high_align,
        !span.ends_at(span.spec_window_at(at)) ==> span.spec_window_at(at).len == span.window
            && span.starts_window((at + span.window) as u64),
{
    let a = span.align as int;
    let w = span.spec_window_at(at);
    lemma_span(span);
    lemma_multiples_apart(span.low_align as int, at as int, a);
    lemma_multiples_apart(at as int, span.high_align as int, a);
    lemma_multiples_apart(0, (span.high_align - at) as int, a);
    lemma_multiples_add(at as int, span.window as int, a);
    lemma_multiples_add(at as int, w.len as int, a);
    lemma_next_multiple(at - span.low_align, span.window as int);
    if at + w.len < span.high_align {
        lemma_multiples_apart(at + w.len, span.high_align as int, a);
    }
}

/// Where the widened range is no longer than a full window, the one window
/// starts where the range starts, and is the range.
pub proof fn lemma_one_window(span: Span, at: u64)
    requires
        span.valid(),
        span.starts_window(at),
        span.high_align - span.low_align <= span.window,
    ensures
        at == span.low_align,
        span.spec_window_at(at).offset == span.low_align,
        span.spec_window_at(at).offset + span.spec_window_at(at).len == span.high_align,
{
    lemma_span(span);
    vstd::arithmetic::div_mod::lemma_small_mod(0, span.window as nat);
    lemma_multiples_apart(0, at - span.low_align, span.window as int);
}

/// A request that fits in the bounce buffer together with a cell on either
/// side is served by one window, and that window is the widened range.
pub proof fn lemma_single_window(offset: u64, nbytes: u64, align: u64)
    requires
        spec_span(
            offset,
            nbytes,
            align,
            spec_bounce_len(nbytes as int, align as int) as u64,
        ) is Some,
        nbytes + 2 * align <= MAX_LEN_BOUNCE_BUFF,
    ensures
        ({
            let span = spec_span(
                offset,
                nbytes,
                align,
                spec_bounce_len(nbytes as int, align as int) as u64,
            )->0;
            let w = span.spec_window_at(span.low_align);
            &&& w.offset == span.low_align
            &&& w.offset + w.len == span.high_align
            &&& w.real_offset == offset
            &&& w.real_high == offset + nbytes
        }),
{
    let a = align as int;
    let len = spec_bounce_len(nbytes as int, a);
    let span = spec_span(offset, nbytes, align, len as u64)->0;
    lemma_round_down(nbytes + 2 * a, a);
    lemma_round_down(offset as int, a);
    lemma_round_up(offset + nbytes, a);
    let wide = span.high_align - span.low_align;
    lemma_multiples_apart(span.low_align as int, span.high_align as int, a);
    // Both are multiples of the cell size, and the widened range is shorter
    // than the request with a cell on either side.
    assert(wide < nbytes + 2 * a);
    assert(wide <= len) by {
        if wide > len {
            lemma_multiples_apart(0, len, a);
            lemma_multiples_apart(0, wide, a);
            lemma_multiples_apart(len, wide, a);
        }
    }
}

} // verus!
