//! Coverage buffer: the coverage of one device scanline, kept as a list of
//! intervals of pixels with the same coverage.
//!
//! The list runs from a head sentinel at the least pixel to a tail sentinel
//! at the largest; the coverage of an interval applies from its own pixel up
//! to the pixel of the next interval. If we add the subpixel interval from
//! 0.5 to 3.5 pixels once:
//!
//! ```text
//!   m_nPixelX: INT_MIN  |  0  |  1  |  3  |  4  | INT_MAX
//! m_nCoverage: 0        |  4  |  8  |  4  |  0  | 0xdeadbeef
//! ```

use vstd::prelude::*;
use crate::aarasterizer::{c_nShiftSize, c_nShiftSizeSquared};
use crate::cuts::{
    cut_added, cuts_are, interval_cuts_added, lemma_cut_present, lemma_cuts_interval,
    lemma_cuts_none, lemma_cuts_same, lemma_cuts_step, lemma_insert_cut, lemma_same_cuts,
    same_cuts,
};
use crate::helpers::{FloorShift, LowBits};
use crate::types::{HRESULT, INT, S_OK};

verus! {

/// Intervals per buffer of the coverage buffer.
///
/// Must be at least 6: 4 for the worst case of one added interval, and 1
/// each for the head and tail sentinels.
pub const INTERVAL_BUFFER_NUMBER: usize = 32;

/// The buffers of a coverage buffer are never more than this, so that the
/// index of an interval always fits in 32 bits.
pub const INTERVAL_BUFFER_LIMIT: usize = 0x03ff_fffe;

/// The coverage of the tail sentinel, which applies to no pixel: 0xdeadbeef.
pub const COVERAGE_TAIL: INT = -559038737;

/// The pool of intervals is used up.
pub const E_OUTOFMEMORY: HRESULT = -2147024882;

/// Index of the head sentinel among the intervals.
pub const HEAD_INTERVAL: usize = 0;

/// Index of the tail sentinel among the intervals.
pub const TAIL_INTERVAL: usize = 1;

/// Interval coverage descriptor for our antialiased filler.
#[derive(Clone, Copy, Debug, PartialEq, Eq, Structural)]
pub struct CCoverageInterval {
    /// Index of the next interval (look for the tail sentinel).
    pub m_pNext: usize,
    /// Interval's left edge (the left edge of the next interval is the
    /// right edge).
    pub m_nPixelX: INT,
    /// Pixel coverage for interval.
    pub m_nCoverage: INT,
}

impl Default for CCoverageInterval {
    fn default() -> (interval: Self)
        ensures
            interval == (CCoverageInterval { m_pNext: 0, m_nPixelX: 0, m_nCoverage: 0 }),
    {
        CCoverageInterval { m_pNext: 0, m_nPixelX: 0, m_nCoverage: 0 }
    }
}

/// Allocator structure for the antialiased fill interval data: one buffer
/// of [`INTERVAL_BUFFER_NUMBER`] intervals.
pub struct CCoverageIntervalBuffer {
    pub m_interval: Vec<CCoverageInterval>,
}

impl CCoverageIntervalBuffer {
    /// A buffer of [`INTERVAL_BUFFER_NUMBER`] cleared intervals.
    pub fn new() -> (buffer: Self)
        ensures
            buffer.m_interval@.len() == INTERVAL_BUFFER_NUMBER,
    {
        let mut m_interval: Vec<CCoverageInterval> = Vec::new();
        let mut i: usize = 0;
        while i < INTERVAL_BUFFER_NUMBER
            invariant
                i <= INTERVAL_BUFFER_NUMBER,
                m_interval@.len() == i,
            decreases INTERVAL_BUFFER_NUMBER - i,
        {
            m_interval.push(CCoverageInterval { m_pNext: 0, m_nPixelX: 0, m_nCoverage: 0 });
            i += 1;
        }
        CCoverageIntervalBuffer { m_interval }
    }
}

/// An interval of the coverage list as a pair of numbers: its first pixel
/// and its coverage.
pub struct CoverageSpan {
    pub x: int,
    pub coverage: int,
}

/// The first pixels of the spans are strictly ascending.
pub open spec fn spans_ascending(s: Seq<CoverageSpan>) -> bool {
    forall|i: int, j: int| 0 <= i < j < s.len() ==> (#[trigger] s[i]).x < (#[trigger] s[j]).x
}

/// Index of the last span that begins at pixel `p` or before it.
pub open spec fn span_index(s: Seq<CoverageSpan>, p: int) -> int
    decreases s.len(),
{
    if s.len() <= 1 {
        0
    } else if s.last().x <= p {
        s.len() - 1
    } else {
        span_index(s.drop_last(), p)
    }
}

/// The coverage of pixel `p`: that of the span which holds it.
pub open spec fn coverage_at(s: Seq<CoverageSpan>, p: int) -> int {
    s[span_index(s, p)].coverage
}

/// The part of pixel `p`, in subpixels, that the subpixel interval from `l`
/// to `r` covers: the length of its intersection with `[8p, 8p + 8)`.
pub open spec fn overlap(l: int, r: int, p: int) -> int {
    let lo = if l > 8 * p {
        l
    } else {
        8 * p
    };
    let hi = if r < 8 * p + 8 {
        r
    } else {
        8 * p + 8
    };
    if hi > lo {
        hi - lo
    } else {
        0
    }
}

/// The span that holds a pixel is the span that begins at or before it and
/// whose successor begins after it.
pub proof fn lemma_span_index(s: Seq<CoverageSpan>, p: int, k: int)
    requires
        spans_ascending(s),
        0 <= k < s.len(),
        s[k].x <= p,
        k == s.len() - 1 || p < s[k + 1].x,
    ensures
        span_index(s, p) == k,
    decreases s.len(),
{
    if s.len() <= 1 {
    } else if s.last().x <= p {
        if k < s.len() - 1 {
            assert(s[k + 1].x <= s[s.len() - 1].x) by {
                if k + 1 < s.len() - 1 {
                    assert(s[k + 1].x < s[s.len() - 1].x);
                }
            }
        }
    } else {
        let shorter = s.drop_last();
        assert forall|i: int, j: int| 0 <= i < j < shorter.len() implies (#[trigger] shorter[i]).x
            < (#[trigger] shorter[j]).x by {
            assert(s[i].x < s[j].x);
        }
        assert(shorter[k] == s[k]);
        if k < shorter.len() - 1 {
            assert(shorter[k + 1] == s[k + 1]);
        }
        lemma_span_index(shorter, p, k);
    }
}

/// Every pixel from the first span on lies in a span.
pub proof fn lemma_span_found(s: Seq<CoverageSpan>, p: int)
    requires
        s.len() >= 1,
        s[0].x <= p,
    ensures
        0 <= span_index(s, p) < s.len(),
        s[span_index(s, p)].x <= p,
        span_index(s, p) == s.len() - 1 || p < s[span_index(s, p) + 1].x,
    decreases s.len(),
{
    if s.len() <= 1 {
    } else if s.last().x <= p {
    } else {
        let shorter = s.drop_last();
        lemma_span_found(shorter, p);
        let k = span_index(shorter, p);
        assert(shorter[k] == s[k]);
        if k < shorter.len() - 1 {
            assert(shorter[k + 1] == s[k + 1]);
        }
    }
}

/// Putting a span between two neighbours gives its coverage to the pixels
/// from its first pixel up to the next span, and changes no other pixel.
pub proof fn lemma_insert_span(s: Seq<CoverageSpan>, t: int, span: CoverageSpan, p: int)
    requires
        spans_ascending(s),
        0 <= t < s.len() - 1,
        s[t].x < span.x < s[t + 1].x,
        s[0].x <= p,
    ensures
        spans_ascending(s.insert(t + 1, span)),
        coverage_at(s.insert(t + 1, span), p) == if span.x <= p < s[t + 1].x {
            span.coverage
        } else {
            coverage_at(s, p)
        },
{
    let longer = s.insert(t + 1, span);
    assert forall|i: int, j: int| 0 <= i < j < longer.len() implies (#[trigger] longer[i]).x < (
    #[trigger] longer[j]).x by {
        let a = if i <= t {
            i
        } else {
            i - 1
        };
        let b = if j <= t {
            j
        } else {
            j - 1
        };
        if i == t + 1 {
            assert(longer[j] == s[b]);
            if b > t + 1 {
                assert(s[t + 1].x < s[b].x);
            }
        } else if j == t + 1 {
            assert(longer[i] == s[a]);
            if a < t {
                assert(s[a].x < s[t].x);
            }
        } else {
            assert(longer[i] == s[a] && longer[j] == s[b]);
            assert(s[a].x < s[b].x);
        }
    }
    lemma_span_found(s, p);
    let k = span_index(s, p);
    if k < t {
        assert(longer[k] == s[k] && longer[k + 1] == s[k + 1]);
        lemma_span_index(longer, p, k);
    } else if k == t {
        if p < span.x {
            assert(longer[t] == s[t]);
            lemma_span_index(longer, p, t);
        } else {
            assert(longer[t + 2] == s[t + 1]);
            lemma_span_index(longer, p, t + 1);
        }
    } else {
        assert(longer[k + 1] == s[k]);
        if k < s.len() - 1 {
            assert(longer[k + 2] == s[k + 1]);
        }
        assert(s[t + 1].x <= s[k].x) by {
            if t + 1 < k {
                assert(s[t + 1].x < s[k].x);
            }
        }
        lemma_span_index(longer, p, k + 1);
    }
}

/// The span at `t` with another coverage.
pub open spec fn recovered(s: Seq<CoverageSpan>, t: int, coverage: int) -> Seq<CoverageSpan> {
    s.update(t, CoverageSpan { x: s[t].x, coverage: coverage })
}

/// Changing the coverage of a span changes the coverage of its pixels, and
/// of no other pixel.
pub proof fn lemma_recover_span(s: Seq<CoverageSpan>, t: int, coverage: int, p: int)
    requires
        spans_ascending(s),
        0 <= t < s.len() - 1,
        s[0].x <= p,
    ensures
        spans_ascending(recovered(s, t, coverage)),
        coverage_at(recovered(s, t, coverage), p) == if s[t].x <= p < s[t + 1].x {
            coverage
        } else {
            coverage_at(s, p)
        },
{
    let changed = recovered(s, t, coverage);
    assert forall|i: int, j: int| 0 <= i < j < changed.len() implies (#[trigger] changed[i]).x < (
    #[trigger] changed[j]).x by {
        assert(s[i].x < s[j].x);
    }
    lemma_span_found(s, p);
    let k = span_index(s, p);
    assert(changed[k].x == s[k].x);
    if k < s.len() - 1 {
        assert(changed[k + 1].x == s[k + 1].x);
    }
    lemma_span_index(changed, p, k);
    if k != t {
        if s[t].x <= p < s[t + 1].x {
            lemma_span_index(s, p, t);
        }
    }
}

/// Two subpixel intervals that follow one another cover of a pixel what the
/// interval from the start of the first to the end of the second covers.
pub proof fn lemma_overlap_joined(a: int, b: int, c: int, p: int)
    requires
        a <= b <= c,
    ensures
        overlap(a, b, p) + overlap(b, c, p) == overlap(a, c, p),
        0 <= overlap(a, b, p) <= 8,
        overlap(a, b, p) <= overlap(a, c, p),
{
}

/// What a subpixel interval covers of the pixels: all of the pixels strictly
/// between its first and its last pixel, the part to the right of its start
/// of its first pixel, and the part to the left of its end of its last.
pub proof fn lemma_overlap_cases(l: int, r: int, p: int)
    requires
        l < r,
    ensures
        p < l / 8 ==> overlap(l, r, p) == 0,
        p > r / 8 ==> overlap(l, r, p) == 0,
        l / 8 < p < r / 8 ==> overlap(l, r, p) == 8,
        l / 8 == r / 8 && p == l / 8 ==> overlap(l, r, p) == r - l,
        l / 8 < r / 8 && p == l / 8 ==> overlap(l, r, p) == 8 - l % 8,
        l / 8 < r / 8 && p == r / 8 ==> overlap(l, r, p) == r % 8,
{
}


/// An arena of the `typed_arena` crate. Nothing is known of what is inside.
#[verifier::external_type_specification]
#[verifier::external_body]
#[verifier::reject_recursive_types(T)]
pub struct ExArena<T>(typed_arena::Arena<T>);

/// `Arena::new` of `typed_arena`: a new arena. Nothing is claimed of it.
pub assume_specification<T>[ typed_arena::Arena::<T>::new ]() -> (arena: typed_arena::Arena<T>)
;

/// `Arena::alloc` of `typed_arena`: moves the buffer into the arena and
/// hands back a reference to it, which lives as long as the arena. What the
/// reference points to is the buffer that was handed in.
#[verifier::external_body]
fn AllocIntervalBuffer<'a>(
    arena: &'a typed_arena::Arena<CCoverageIntervalBuffer>,
    buffer: CCoverageIntervalBuffer,
) -> (allocated: &'a mut CCoverageIntervalBuffer)
    ensures
        *allocated == buffer,
{
    arena.alloc(buffer)
}

/// Number of intervals in buffer `b` of the buffers.
pub open spec fn chunk_len<'a>(buffers: Seq<&'a mut CCoverageIntervalBuffer>, b: int) -> nat {
    buffers[b].m_interval@.len()
}

/// Coverage buffer implementation that maintains coverage information for
/// one scanline.
///
/// This implementation will maintain a linked list of intervals consisting
/// of x value in pixel space and a coverage value that applies for all
/// pixels between an interval and the next.
pub struct CCoverageBuffer<'a> {
    /// Index of the list head entry.
    m_pIntervalStart: usize,
    /// Index of the next interval that is free.
    m_pIntervalNew: usize,
    /// The position at which we need to grow the buffer. The buffer is
    /// grown once before an interval is added, so there must be room for
    /// the worst case then, which is four new intervals.
    m_pIntervalEndMinus4: usize,
    m_pIntervalBufferBuiltin: CCoverageIntervalBuffer,
    /// Number of the buffer that intervals are taken from; 0 is the
    /// built-in one.
    m_pIntervalBufferCurrent: usize,
    /// The buffers that were taken from the arena, in the order in which
    /// they are used.
    m_pIntervalBufferNext: Vec<&'a mut CCoverageIntervalBuffer>,
    arena: &'a typed_arena::Arena<CCoverageIntervalBuffer>,
    /// The indices of the intervals of the list, in list order.
    order: Ghost<Seq<int>>,
}

impl<'a> CCoverageBuffer<'a> {
    /// Number of interval slots in all buffers.
    pub closed spec fn capacity(&self) -> int {
        (1 + self.m_pIntervalBufferNext@.len() as int) * 32
    }

    /// The interval in slot `i`, the slots of all buffers counted through.
    pub closed spec fn slot(&self, i: int) -> CCoverageInterval {
        if i < 32 {
            self.m_pIntervalBufferBuiltin.m_interval@[i]
        } else {
            self.m_pIntervalBufferNext@[i / 32 - 1].m_interval@[i % 32]
        }
    }

    /// Every buffer holds [`INTERVAL_BUFFER_NUMBER`] intervals, and there
    /// are no more buffers than [`INTERVAL_BUFFER_LIMIT`].
    pub closed spec fn storage_ok(&self) -> bool {
        &&& self.m_pIntervalBufferBuiltin.m_interval@.len() == INTERVAL_BUFFER_NUMBER
        &&& self.m_pIntervalBufferNext@.len() <= INTERVAL_BUFFER_LIMIT
        &&& forall|b: int|
            0 <= b < self.m_pIntervalBufferNext@.len() ==> #[trigger] chunk_len(
                self.m_pIntervalBufferNext@,
                b,
            ) == INTERVAL_BUFFER_NUMBER
    }

    /// Number of intervals in buffer `b` of those that came from the arena.
    pub closed spec fn buffer_len(&self, b: int) -> nat {
        chunk_len(self.m_pIntervalBufferNext@, b)
    }

    /// The indices of the intervals of the list, in list order.
    pub closed spec fn order(&self) -> Seq<int> {
        self.order@
    }

    /// The list of intervals, from the head sentinel to the tail sentinel.
    pub closed spec fn spans(&self) -> Seq<CoverageSpan> {
        Seq::new(
            self.order@.len(),
            |i: int|
                CoverageSpan {
                    x: self.slot(self.order@[i]).m_nPixelX as int,
                    coverage: self.slot(self.order@[i]).m_nCoverage as int,
                },
        )
    }

    /// The cursors are within the buffer that intervals are taken from, and
    /// every interval that was taken is in the list, but for at most six
    /// that were passed over with each buffer.
    pub closed spec fn cursors_ok(&self) -> bool {
        let base = self.m_pIntervalBufferCurrent * 32;
        &&& self.m_pIntervalStart == HEAD_INTERVAL
        &&& self.m_pIntervalBufferCurrent <= self.m_pIntervalBufferNext@.len()
        &&& base + 2 <= self.m_pIntervalNew <= base + 31
        &&& self.m_pIntervalEndMinus4 == base + 28
        &&& self.m_pIntervalNew <= self.order@.len() + 6 * self.m_pIntervalBufferCurrent
    }

    /// A list that has used up the pool holds at least 26 intervals for
    /// each buffer of the pool.
    pub proof fn lemma_exhausted(&self)
        requires
            self.wf(),
            self.exhausted(),
        ensures
            self.spans().len() >= 26 * INTERVAL_BUFFER_LIMIT,
    {
    }

    /// The links of the intervals thread the list `order`, from the head
    /// sentinel to the tail sentinel, through intervals that were handed
    /// out.
    pub closed spec fn linked(&self) -> bool {
        let order = self.order@;
        &&& order.len() >= 2
        &&& order[0] == HEAD_INTERVAL
        &&& order[order.len() - 1] == TAIL_INTERVAL
        &&& forall|i: int| 0 <= i < order.len() ==> 0 <= #[trigger] order[i] < self.m_pIntervalNew
        &&& forall|i: int|
            0 <= i < order.len() - 1 ==> self.slot(#[trigger] order[i]).m_pNext == order[i + 1]
        &&& forall|i: int, j: int|
            0 <= i < j < order.len() ==> #[trigger] order[i] != #[trigger] order[j]
    }

    /// The coverage buffer is in a valid state: its list runs from the head
    /// sentinel at the least pixel, with no coverage, to the tail sentinel
    /// at the largest, through intervals at strictly ascending pixels, each
    /// with a coverage from 0 to 64.
    pub open spec fn wf(&self) -> bool {
        &&& self.structure_ok()
        &&& spans_ok(self.spans())
    }

    /// Storage, cursors and links are in order.
    pub closed spec fn structure_ok(&self) -> bool {
        &&& self.storage_ok()
        &&& self.cursors_ok()
        &&& self.linked()
    }

    /// The buffers that were taken from the arena and are kept.
    pub closed spec fn chunks(&self) -> nat {
        self.m_pIntervalBufferNext@.len()
    }

    /// The buffers, of those taken from the arena, that the list has gone
    /// on to; the list begins in the buffer of its own.
    pub closed spec fn chunks_in_use(&self) -> nat {
        self.m_pIntervalBufferCurrent as nat
    }

    /// The buffers after the list has gone on to the next: one more is in
    /// use, and one more is taken from the arena where none was spare.
    pub open spec fn went_on(&self, before: &Self) -> bool {
        &&& self.chunks_in_use() == before.chunks_in_use() + 1
        &&& self.chunks() == if before.chunks() > before.chunks_in_use() {
            before.chunks()
        } else {
            before.chunks() + 1
        }
    }

    /// The buffers are as before.
    pub open spec fn same_pool(&self, before: &Self) -> bool {
        &&& self.chunks() == before.chunks()
        &&& self.chunks_in_use() == before.chunks_in_use()
    }

    /// A well-formed buffer has its storage in order.
    pub proof fn lemma_storage(&self)
        requires
            self.wf(),
        ensures
            self.storage_ok(),
            self.chunks_in_use() <= self.chunks(),
    {
    }

    /// The pool of intervals is used up: no further buffer can be taken.
    pub closed spec fn exhausted(&self) -> bool {
        self.m_pIntervalBufferCurrent >= INTERVAL_BUFFER_LIMIT
    }

    /// The next interval to be added needs a further buffer: fewer than
    /// four intervals are free in the buffer in use.
    pub closed spec fn needs_buffer(&self) -> bool {
        self.m_pIntervalNew >= self.m_pIntervalEndMinus4
    }

    /// The list holds the two sentinels only: no pixel is covered.
    pub open spec fn is_clear(&self) -> bool {
        self.spans().len() == 2
    }

    /// The interval in slot `index`.
    fn Interval(&self, index: usize) -> (interval: CCoverageInterval)
        requires
            self.storage_ok(),
            index < self.capacity(),
        ensures
            interval == self.slot(index as int),
    {
        if index < INTERVAL_BUFFER_NUMBER {
            self.m_pIntervalBufferBuiltin.m_interval[index]
        } else {
            let b: usize = index / INTERVAL_BUFFER_NUMBER - 1;
            assert(self.buffer_len(b as int) == INTERVAL_BUFFER_NUMBER);
            self.m_pIntervalBufferNext[b].m_interval[index % INTERVAL_BUFFER_NUMBER]
        }
    }

    /// Puts `interval` into slot `index`.
    fn SetInterval(&mut self, index: usize, interval: CCoverageInterval)
        requires
            old(self).storage_ok(),
            index < old(self).capacity(),
        ensures
            final(self).storage_ok(),
            final(self).capacity() == old(self).capacity(),
            final(self).slot(index as int) == interval,
            forall|i: int|
                0 <= i < old(self).capacity() && i != index ==> final(self).slot(i) == old(self).slot(i),
            final(self).m_pIntervalStart == old(self).m_pIntervalStart,
            final(self).m_pIntervalNew == old(self).m_pIntervalNew,
            final(self).m_pIntervalEndMinus4 == old(self).m_pIntervalEndMinus4,
            final(self).m_pIntervalBufferCurrent == old(self).m_pIntervalBufferCurrent,
            final(self).m_pIntervalBufferNext@.len() == old(self).m_pIntervalBufferNext@.len(),
            final(self).order@ == old(self).order@,
    {
        if index < INTERVAL_BUFFER_NUMBER {
            self.m_pIntervalBufferBuiltin.m_interval[index] = interval;
            proof {
                assert forall|b: int|
                    0 <= b < self.m_pIntervalBufferNext@.len() implies #[trigger] chunk_len(
                    self.m_pIntervalBufferNext@,
                    b,
                ) == INTERVAL_BUFFER_NUMBER by {
                    assert(chunk_len(old(self).m_pIntervalBufferNext@, b)
                        == INTERVAL_BUFFER_NUMBER);
                }
            }
        } else {
            let b: usize = index / INTERVAL_BUFFER_NUMBER - 1;
            assert(self.buffer_len(b as int) == INTERVAL_BUFFER_NUMBER);
            self.m_pIntervalBufferNext[b].m_interval[index % INTERVAL_BUFFER_NUMBER] = interval;
            proof {
                assert forall|c: int|
                    0 <= c < self.m_pIntervalBufferNext@.len() implies #[trigger] chunk_len(
                    self.m_pIntervalBufferNext@,
                    c,
                ) == INTERVAL_BUFFER_NUMBER by {
                    assert(chunk_len(old(self).m_pIntervalBufferNext@, c)
                        == INTERVAL_BUFFER_NUMBER);
                    if c != b {
                        assert(self.m_pIntervalBufferNext@[c] == old(self).m_pIntervalBufferNext@[c]);
                    }
                }
                assert forall|i: int| 0 <= i < old(self).capacity() && i != index implies self.slot(
                    i,
                ) == old(self).slot(i) by {
                    if i >= 32 {
                        let c = i / 32 - 1;
                        if c != b {
                            assert(self.m_pIntervalBufferNext@[c] == old(self).m_pIntervalBufferNext@[c]);
                        } else {
                            assert(i % 32 != index % 32);
                        }
                    }
                }
            }
        }
    }
}


/// What the list of a coverage buffer always holds: strictly ascending
/// pixels, the head sentinel with no coverage at the least pixel, the tail
/// sentinel at the largest, and between them coverages from 0 to 64.
pub open spec fn spans_ok(s: Seq<CoverageSpan>) -> bool {
    &&& spans_ascending(s)
    &&& s.len() >= 2
    &&& s[0] == (CoverageSpan { x: INT::MIN as int, coverage: 0 })
    &&& s[s.len() - 1] == (CoverageSpan { x: INT::MAX as int, coverage: COVERAGE_TAIL as int })
    &&& forall|i: int| 0 < i < s.len() - 1 ==> 0 <= (#[trigger] s[i]).coverage <= c_nShiftSizeSquared
}

/// No pixel of a well-formed list has a coverage below 0 or above 64.
pub proof fn lemma_coverage_bounded(s: Seq<CoverageSpan>, p: int)
    requires
        spans_ok(s),
        INT::MIN <= p < INT::MAX,
    ensures
        0 <= coverage_at(s, p) <= c_nShiftSizeSquared,
{
    lemma_span_found(s, p);
    let k = span_index(s, p);
    if k == s.len() - 1 {
    } else if k == 0 {
    } else {
        assert(0 <= s[k].coverage <= c_nShiftSizeSquared);
    }
}

/// What one run of added coverage amounts to at pixel `p`: `first` at the
/// pixel `left`, a full 8 at each pixel from there up to `frontier`.
pub open spec fn run_cover(left: int, first: int, frontier: int, p: int) -> int {
    if left <= p < frontier {
        if p == left {
            first
        } else {
            8
        }
    } else {
        0
    }
}

/// The list `s` is the list `s0` with a run of coverage added.
pub open spec fn run_added(
    s: Seq<CoverageSpan>,
    s0: Seq<CoverageSpan>,
    left: int,
    first: int,
    frontier: int,
) -> bool {
    forall|p: int|
        INT::MIN <= p < INT::MAX ==> #[trigger] coverage_at(s, p) == coverage_at(s0, p) + run_cover(
            left,
            first,
            frontier,
            p,
        )
}

/// The list `s` covers every pixel as the list `s0` does.
pub open spec fn same_coverage(s: Seq<CoverageSpan>, s0: Seq<CoverageSpan>) -> bool {
    forall|p: int| INT::MIN <= p < INT::MAX ==> #[trigger] coverage_at(s, p) == coverage_at(s0, p)
}

/// The list `s` is the list `s0` with the subpixel interval from `l` to `r`
/// added to the coverage of every pixel.
pub open spec fn interval_added(s: Seq<CoverageSpan>, s0: Seq<CoverageSpan>, l: int, r: int) -> bool {
    forall|p: int|
        INT::MIN <= p < INT::MAX ==> #[trigger] coverage_at(s, p) == coverage_at(s0, p) + overlap(
            l,
            r,
            p,
        )
}

/// Adding the interval from `l` to `r` leaves no pixel with more than 64.
pub open spec fn room_for(s: Seq<CoverageSpan>, l: int, r: int) -> bool {
    forall|p: int|
        INT::MIN <= p < INT::MAX ==> #[trigger] coverage_at(s, p) + overlap(l, r, p)
            <= c_nShiftSizeSquared
}

impl<'a> CCoverageBuffer<'a> {
    /// The interval `at` stands at place `t` of the list, and is not the
    /// tail sentinel.
    pub closed spec fn at_place(&self, at: usize, t: int) -> bool {
        &&& 0 <= t < self.order@.len() - 1
        &&& self.order@[t] == at
    }

    /// A coverage buffer in its initial state over the buffers of `arena`.
    pub fn new(arena: &'a typed_arena::Arena<CCoverageIntervalBuffer>) -> (buffer: Self)
        ensures
            buffer.wf(),
            buffer.is_clear(),
            buffer.chunks() == 0,
            buffer.chunks_in_use() == 0,
    {
        let ghost order: Seq<int> = seq![HEAD_INTERVAL as int, TAIL_INTERVAL as int];
        let mut buffer = CCoverageBuffer {
            m_pIntervalStart: HEAD_INTERVAL,
            m_pIntervalNew: 2,
            m_pIntervalEndMinus4: INTERVAL_BUFFER_NUMBER - 4,
            m_pIntervalBufferBuiltin: CCoverageIntervalBuffer::new(),
            m_pIntervalBufferCurrent: 0,
            m_pIntervalBufferNext: Vec::new(),
            arena: arena,
            order: Ghost(order),
        };
        buffer.Initialize();
        buffer
    }

    /// Set the coverage buffer to a valid initial state.
    pub fn Initialize(&mut self)
        requires
            old(self).storage_ok(),
        ensures
            final(self).wf(),
            final(self).is_clear(),
            final(self).chunks() == 0,
            final(self).chunks_in_use() == 0,
    {
        self.m_pIntervalBufferNext.clear();
        self.m_pIntervalBufferBuiltin.m_interval[0] = CCoverageInterval {
            m_pNext: TAIL_INTERVAL,
            m_nPixelX: INT::MIN,
            m_nCoverage: 0,
        };
        self.m_pIntervalBufferBuiltin.m_interval[1] = CCoverageInterval {
            m_pNext: TAIL_INTERVAL,
            m_nPixelX: INT::MAX,
            m_nCoverage: COVERAGE_TAIL,
        };
        self.m_pIntervalBufferCurrent = 0;
        self.m_pIntervalStart = HEAD_INTERVAL;
        self.m_pIntervalNew = 2;
        self.m_pIntervalEndMinus4 = INTERVAL_BUFFER_NUMBER - 4;
        proof {
            self.order@ = seq![HEAD_INTERVAL as int, TAIL_INTERVAL as int];
            assert(self.spans()[0] == (CoverageSpan { x: INT::MIN as int, coverage: 0 }));
            assert(self.spans()[1] == (CoverageSpan {
                x: INT::MAX as int,
                coverage: COVERAGE_TAIL as int,
            }));
        }
    }

    /// Free all allocated buffers: the buffers that came from the arena are
    /// given up, and the coverage buffer is in its initial state again.
    pub fn Destroy(&mut self)
        requires
            old(self).wf(),
        ensures
            final(self).wf(),
            final(self).is_clear(),
            final(self).chunks() == 0,
            final(self).chunks_in_use() == 0,
    {
        self.Initialize();
    }

    /// Reset the coverage buffer: point the head back to the tail, and reset
    /// where the next new entry will be placed. The buffers are kept for
    /// the next scanline.
    pub fn Reset(&mut self)
        requires
            old(self).wf(),
        ensures
            final(self).wf(),
            final(self).is_clear(),
            final(self).chunks() == old(self).chunks(),
            final(self).chunks_in_use() == 0,
    {
        proof {
            assert(old(self).spans()[0].x == old(self).slot(old(self).order@[0]).m_nPixelX);
            assert(old(self).spans()[0].coverage == old(self).slot(old(self).order@[0]).m_nCoverage);
            let last = old(self).order@.len() - 1;
            assert(old(self).spans()[last].x == old(self).slot(old(self).order@[last]).m_nPixelX);
            assert(old(self).spans()[last].coverage == old(self).slot(
                old(self).order@[last],
            ).m_nCoverage);
        }
        let mut head = self.Interval(HEAD_INTERVAL);
        head.m_pNext = TAIL_INTERVAL;
        self.SetInterval(HEAD_INTERVAL, head);
        self.m_pIntervalBufferCurrent = 0;
        self.m_pIntervalNew = 2;
        self.m_pIntervalEndMinus4 = INTERVAL_BUFFER_NUMBER - 4;
        proof {
            self.order@ = seq![HEAD_INTERVAL as int, TAIL_INTERVAL as int];
            assert(self.spans()[0] == (CoverageSpan { x: INT::MIN as int, coverage: 0 }));
            assert(self.spans()[1] == (CoverageSpan {
                x: INT::MAX as int,
                coverage: COVERAGE_TAIL as int,
            }));
        }
    }

    /// Grow our interval buffer: go on to the next buffer, taking a new one
    /// from the arena where there is none.
    ///
    /// Fails with `E_OUTOFMEMORY`, changing nothing, where the pool is
    /// exhausted.
    fn Grow(&mut self) -> (hr: HRESULT)
        requires
            old(self).structure_ok(),
            old(self).needs_buffer(),
        ensures
            hr == S_OK <==> !old(self).exhausted(),
            hr != S_OK ==> hr == E_OUTOFMEMORY && final(self).structure_ok() && final(self).spans()
                == old(self).spans() && final(self).order@ == old(self).order@ && final(self).exhausted() && final(self).needs_buffer() == old(self).needs_buffer(),
            hr == S_OK ==> final(self).structure_ok() && final(self).spans() == old(self).spans()
                && final(self).order@ == old(self).order@ && !final(self).needs_buffer(),
            hr == S_OK ==> final(self).went_on(old(self)),
            hr != S_OK ==> final(self).same_pool(old(self)),
    {
        if self.m_pIntervalBufferCurrent >= INTERVAL_BUFFER_LIMIT {
            return E_OUTOFMEMORY;
        }
        if self.m_pIntervalBufferCurrent == self.m_pIntervalBufferNext.len() {
            let pIntervalBufferNew = AllocIntervalBuffer(self.arena, CCoverageIntervalBuffer::new());
            self.m_pIntervalBufferNext.push(pIntervalBufferNew);
            proof {
                assert forall|b: int|
                    0 <= b < self.m_pIntervalBufferNext@.len() implies #[trigger] chunk_len(
                    self.m_pIntervalBufferNext@,
                    b,
                ) == INTERVAL_BUFFER_NUMBER by {
                    if b < old(self).m_pIntervalBufferNext@.len() {
                        assert(chunk_len(old(self).m_pIntervalBufferNext@, b)
                            == INTERVAL_BUFFER_NUMBER);
                        assert(self.m_pIntervalBufferNext@[b] == old(self).m_pIntervalBufferNext@[b]);
                    }
                }
            }
        }
        self.m_pIntervalBufferCurrent = self.m_pIntervalBufferCurrent + 1;
        self.m_pIntervalNew = self.m_pIntervalBufferCurrent * INTERVAL_BUFFER_NUMBER + 2;
        self.m_pIntervalEndMinus4 = self.m_pIntervalBufferCurrent * INTERVAL_BUFFER_NUMBER + (
        INTERVAL_BUFFER_NUMBER - 4);
        proof {
            assert forall|i: int| 0 <= i < old(self).capacity() implies self.slot(i) == old(self).slot(i) by {
                if i >= 32 {
                    assert(self.m_pIntervalBufferNext@[i / 32 - 1] == old(self).m_pIntervalBufferNext@[i / 32 - 1]);
                }
            }
            assert(self.spans() =~= old(self).spans());
        }
        S_OK
    }

    /// Index of the list head entry.
    pub closed spec fn start(&self) -> usize {
        self.m_pIntervalStart
    }

    /// Index of the list head entry, which stands at the first place of the
    /// list.
    pub fn Start(&self) -> (start: usize)
        requires
            self.wf(),
        ensures
            start == self.start(),
            self.at_place(start, 0),
            self.spans().len() >= 2,
    {
        self.m_pIntervalStart
    }

    /// The interval `at`, which stands at place `t` of the list. Its link
    /// is the tail sentinel exactly where it is the last interval before
    /// that.
    pub(crate) fn IntervalAt(&self, at: usize, Ghost(t): Ghost<int>) -> (interval: CCoverageInterval)
        requires
            self.wf(),
            self.at_place(at, t),
        ensures
            0 <= t < self.spans().len() - 1,
            interval.m_nPixelX == self.spans()[t].x,
            interval.m_nCoverage == self.spans()[t].coverage,
            (interval.m_pNext == TAIL_INTERVAL) == (t + 1 == self.spans().len() - 1),
            t + 1 < self.spans().len() - 1 ==> self.at_place(interval.m_pNext, t + 1),
    {
        proof {
            if t + 1 < self.order@.len() - 1 {
                assert(self.order@[t + 1] != self.order@[self.order@.len() - 1]);
            }
        }
        self.Interval(at)
    }

    /// The intervals of the list, from the head sentinel to the tail
    /// sentinel.
    pub fn GetIntervals(&self) -> (intervals: Vec<CCoverageInterval>)
        requires
            self.wf(),
        ensures
            intervals@.len() == self.spans().len(),
            forall|i: int|
                0 <= i < intervals@.len() ==> (#[trigger] intervals@[i]).m_nPixelX
                    == self.spans()[i].x && intervals@[i].m_nCoverage == self.spans()[i].coverage,
    {
        let mut intervals: Vec<CCoverageInterval> = Vec::new();
        let mut at: usize = self.Start();
        let ghost mut t: int = 0;
        loop
            invariant_except_break
                self.at_place(at, t),
                intervals@.len() == t,
            invariant
                self.wf(),
                0 <= t,
                forall|i: int|
                    0 <= i < intervals@.len() && i < self.spans().len() - 1 ==> (
                    #[trigger] intervals@[i]).m_nPixelX == self.spans()[i].x
                        && intervals@[i].m_nCoverage == self.spans()[i].coverage,
            ensures
                intervals@.len() == self.spans().len() - 1,
            decreases self.spans().len() - t,
        {
            let interval = self.IntervalAt(at, Ghost(t));
            intervals.push(interval);
            if interval.m_pNext == TAIL_INTERVAL {
                break ;
            }
            at = interval.m_pNext;
            proof {
                t = t + 1;
            }
        }
        proof {
            let last = self.order@.len() - 1;
            assert(self.spans()[last].x == self.slot(self.order@[last]).m_nPixelX);
        }
        let tail = self.Interval(TAIL_INTERVAL);
        intervals.push(tail);
        intervals
    }

    /// The first pixel of the interval that follows the interval `at`,
    /// which stands at place `t` of the list.
    pub(crate) fn IntervalEnd(&self, at: usize, Ghost(t): Ghost<int>) -> (x: INT)
        requires
            self.wf(),
            self.at_place(at, t),
        ensures
            x == self.spans()[t + 1].x,
    {
        self.NextPixelX(at, Ghost(t))
    }

    /// The first pixel of the interval that follows the interval `at`.
    fn NextPixelX(&self, at: usize, Ghost(t): Ghost<int>) -> (x: INT)
        requires
            self.structure_ok(),
            self.at_place(at, t),
        ensures
            x == self.spans()[t + 1].x,
    {
        let next = self.Interval(at).m_pNext;
        self.Interval(next).m_nPixelX
    }

    /// The interval that follows the interval `at`.
    fn NextInterval(&self, at: usize, Ghost(t): Ghost<int>) -> (next: usize)
        requires
            self.structure_ok(),
            self.at_place(at, t),
        ensures
            next == self.order@[t + 1],
            t + 1 < self.order@.len() - 1 ==> self.at_place(next, t + 1),
    {
        self.Interval(at).m_pNext
    }

    /// The coverage of the interval `at`.
    fn Coverage(&self, at: usize, Ghost(t): Ghost<int>) -> (coverage: INT)
        requires
            self.structure_ok(),
            self.at_place(at, t),
        ensures
            coverage == self.spans()[t].coverage,
    {
        self.Interval(at).m_nCoverage
    }

    /// Takes a new interval for pixel `nPixelX` with `nCoverage` and links
    /// it in behind the interval `at`.
    fn InsertAfter(&mut self, at: usize, nPixelX: INT, nCoverage: INT, Ghost(t): Ghost<int>) -> (added:
        usize)
        requires
            old(self).structure_ok(),
            old(self).at_place(at, t),
            old(self).room() >= 1,
        ensures
            final(self).structure_ok(),
            final(self).room() == old(self).room() - 1,
            final(self).spans() == old(self).spans().insert(
                t + 1,
                CoverageSpan { x: nPixelX as int, coverage: nCoverage as int },
            ),
            final(self).at_place(at, t),
            final(self).at_place(added, t + 1),
            final(self).order@.len() == old(self).order@.len() + 1,
            final(self).same_pool(old(self)),
    {
        let ghost order0 = self.order@;
        let ghost spans0 = self.spans();
        let pIntervalNew = self.m_pIntervalNew;
        let mut before = self.Interval(at);
        proof {
            assert(self.slot(order0[t]).m_pNext == order0[t + 1]);
        }
        self.SetInterval(
            pIntervalNew,
            CCoverageInterval { m_pNext: before.m_pNext, m_nPixelX: nPixelX, m_nCoverage: nCoverage },
        );
        before.m_pNext = pIntervalNew;
        self.SetInterval(at, before);
        self.m_pIntervalNew = pIntervalNew + 1;
        proof {
            self.order@ = order0.insert(t + 1, pIntervalNew as int);
            let order1 = self.order@;
            assert forall|i: int| 0 <= i < order1.len() implies order1[i] == (if i <= t {
                order0[i]
            } else if i == t + 1 {
                pIntervalNew as int
            } else {
                order0[i - 1]
            }) by {}
            assert forall|i: int| 0 <= i < order0.len() implies #[trigger] order0[i]
                != pIntervalNew by {}
            assert forall|i: int| 0 <= i < order1.len() - 1 implies self.slot(
                #[trigger] order1[i],
            ).m_pNext == order1[i + 1] by {
                if i < t {
                    assert(order0[i] != order0[t]);
                    assert(old(self).slot(order0[i]).m_pNext == order0[i + 1]);
                } else if i == t {
                } else if i == t + 1 {
                } else {
                    assert(order0[t] != order0[i - 1]);
                    assert(old(self).slot(order0[i - 1]).m_pNext == order0[i - 1 + 1]);
                }
            }
            assert forall|i: int, j: int| 0 <= i < j < order1.len() implies #[trigger] order1[i]
                != #[trigger] order1[j] by {
                let a = if i <= t {
                    i
                } else {
                    i - 1
                };
                let b = if j <= t {
                    j
                } else {
                    j - 1
                };
                if i != t + 1 && j != t + 1 {
                    assert(order0[a] != order0[b]);
                }
            }
            let want = spans0.insert(
                t + 1,
                CoverageSpan { x: nPixelX as int, coverage: nCoverage as int },
            );
            assert forall|i: int| 0 <= i < order1.len() implies self.spans()[i] == want[i] by {
                if i <= t {
                    assert(spans0[i].x == old(self).slot(order0[i]).m_nPixelX);
                } else if i > t + 1 {
                    assert(spans0[i - 1].x == old(self).slot(order0[i - 1]).m_nPixelX);
                    assert(order0[t] != order0[i - 1]);
                }
            }
            assert(self.spans() =~= want);
        }
        pIntervalNew
    }

    /// Number of intervals that can be taken before the buffer has to grow
    /// beyond the room that was made for one added interval.
    pub closed spec fn room(&self) -> int {
        self.m_pIntervalBufferCurrent * 32 + 31 - self.m_pIntervalNew
    }

    /// Sets the coverage of the interval `at`.
    fn SetCoverage(&mut self, at: usize, nCoverage: INT, Ghost(t): Ghost<int>)
        requires
            old(self).structure_ok(),
            old(self).at_place(at, t),
        ensures
            final(self).structure_ok(),
            final(self).room() == old(self).room(),
            final(self).spans() == recovered(old(self).spans(), t, nCoverage as int),
            final(self).order@ == old(self).order@,
            final(self).same_pool(old(self)),
    {
        let ghost order0 = self.order@;
        let ghost spans0 = self.spans();
        let mut interval = self.Interval(at);
        interval.m_nCoverage = nCoverage;
        self.SetInterval(at, interval);
        proof {
            assert forall|i: int| 0 <= i < order0.len() - 1 implies self.slot(
                #[trigger] order0[i],
            ).m_pNext == order0[i + 1] by {
                assert(old(self).slot(order0[i]).m_pNext == order0[i + 1]);
            }
            let want = recovered(spans0, t, nCoverage as int);
            assert forall|i: int| 0 <= i < order0.len() implies self.spans()[i] == want[i] by {
                assert(spans0[i].x == old(self).slot(order0[i]).m_nPixelX);
                if i != t {
                    if i < t {
                        assert(order0[i] != order0[t]);
                    } else {
                        assert(order0[t] != order0[i]);
                    }
                }
            }
            assert(self.spans() =~= want);
        }
    }
}


/// What [`lemma_insert_span`] says, of every pixel, and that the list stays
/// well-formed.
pub proof fn lemma_insert_span_all(s: Seq<CoverageSpan>, t: int, span: CoverageSpan)
    requires
        spans_ok(s),
        0 <= t < s.len() - 1,
        s[t].x < span.x < s[t + 1].x,
        0 <= span.coverage <= c_nShiftSizeSquared,
    ensures
        spans_ok(s.insert(t + 1, span)),
        forall|p: int|
            INT::MIN <= p < INT::MAX ==> #[trigger] coverage_at(s.insert(t + 1, span), p) == if span.x
                <= p < s[t + 1].x {
                span.coverage
            } else {
                coverage_at(s, p)
            },
{
    let longer = s.insert(t + 1, span);
    lemma_insert_span(s, t, span, 0);
    assert forall|p: int| INT::MIN <= p < INT::MAX implies #[trigger] coverage_at(longer, p)
        == if span.x <= p < s[t + 1].x {
        span.coverage
    } else {
        coverage_at(s, p)
    } by {
        lemma_insert_span(s, t, span, p);
    }
    assert(longer[0] == s[0]);
    assert(longer[longer.len() - 1] == s[s.len() - 1]);
    assert forall|i: int| 0 < i < longer.len() - 1 implies 0 <= (#[trigger] longer[i]).coverage
        <= c_nShiftSizeSquared by {
        if i <= t {
            assert(longer[i] == s[i]);
        } else if i > t + 1 {
            assert(longer[i] == s[i - 1]);
        }
    }
}

/// What [`lemma_recover_span`] says, of every pixel, and that the list stays
/// well-formed.
pub proof fn lemma_recover_span_all(s: Seq<CoverageSpan>, t: int, coverage: int)
    requires
        spans_ok(s),
        0 < t < s.len() - 1,
        0 <= coverage <= c_nShiftSizeSquared,
    ensures
        spans_ok(recovered(s, t, coverage)),
        forall|p: int|
            INT::MIN <= p < INT::MAX ==> #[trigger] coverage_at(recovered(s, t, coverage), p)
                == if s[t].x <= p < s[t + 1].x {
                coverage
            } else {
                coverage_at(s, p)
            },
{
    let changed = recovered(s, t, coverage);
    lemma_recover_span(s, t, coverage, 0);
    assert forall|p: int| INT::MIN <= p < INT::MAX implies #[trigger] coverage_at(changed, p)
        == if s[t].x <= p < s[t + 1].x {
        coverage
    } else {
        coverage_at(s, p)
    } by {
        lemma_recover_span(s, t, coverage, p);
    }
    assert forall|i: int| 0 < i < changed.len() - 1 implies 0 <= (#[trigger] changed[i]).coverage
        <= c_nShiftSizeSquared by {
        if i != t {
            assert(changed[i] == s[i]);
        }
    }
}

/// The coverage of a span is the coverage of its first pixel.
pub proof fn lemma_span_coverage(s: Seq<CoverageSpan>, t: int)
    requires
        spans_ok(s),
        0 <= t < s.len() - 1,
    ensures
        coverage_at(s, s[t].x) == s[t].coverage,
        INT::MIN <= s[t].x < INT::MAX,
        s[t].x < s[t + 1].x,
        0 <= s[t].coverage <= c_nShiftSizeSquared,
{
    lemma_span_index(s, s[t].x, t);
    if t > 0 {
        assert(s[0].x < s[t].x);
    }
    if t + 1 < s.len() - 1 {
        assert(s[t + 1].x < s[s.len() - 1].x);
    }
}

/// Every pixel of a span has the coverage of the span.
pub proof fn lemma_span_pixel(s: Seq<CoverageSpan>, t: int, p: int)
    requires
        spans_ok(s),
        0 <= t < s.len() - 1,
        s[t].x <= p < s[t + 1].x,
    ensures
        coverage_at(s, p) == s[t].coverage,
{
    lemma_span_index(s, p, t);
}

impl<'a> CCoverageBuffer<'a> {
    /// Finds the interval that begins at pixel `nPixelX`, making one where
    /// there is none; no pixel changes its coverage.
    fn SeekInterval(&mut self, nPixelX: INT) -> (r: (usize, Ghost<int>))
        requires
            old(self).structure_ok(),
            spans_ok(old(self).spans()),
            old(self).room() >= 1,
            INT::MIN < nPixelX < INT::MAX,
        ensures
            final(self).structure_ok(),
            spans_ok(final(self).spans()),
            same_coverage(final(self).spans(), old(self).spans()),
            final(self).room() >= old(self).room() - 1,
            final(self).at_place(r.0, r.1@),
            0 < r.1@,
            final(self).spans()[r.1@].x == nPixelX,
            final(self).spans().len() <= old(self).spans().len() + 1,
            cut_added(final(self).spans(), old(self).spans(), nPixelX as int),
            final(self).same_pool(old(self)),
    {
        let ghost s0 = self.spans();
        let mut pInterval: usize = self.m_pIntervalStart;
        let ghost mut t: int = 0;
        let mut nPixelXNext: INT;
        // Skip any intervals less than 'nPixelX':
        loop
            invariant
                self.structure_ok(),
                self.spans() == s0,
                spans_ok(s0),
                self.at_place(pInterval, t),
                s0[t].x < nPixelX < INT::MAX,
                *self == *old(self),
            ensures
                nPixelXNext == s0[t + 1].x,
                nPixelXNext >= nPixelX,
            decreases s0.len() - t,
        {
            nPixelXNext = self.NextPixelX(pInterval, Ghost(t));
            if !(nPixelXNext < nPixelX) {
                break ;
            }
            pInterval = self.NextInterval(pInterval, Ghost(t));
            proof {
                t = t + 1;
            }
        }
        // Insert a new interval if necessary:
        if nPixelXNext != nPixelX {
            let coverage = self.Coverage(pInterval, Ghost(t));
            proof {
                lemma_span_coverage(s0, t);
                lemma_insert_span_all(
                    s0,
                    t,
                    CoverageSpan { x: nPixelX as int, coverage: coverage as int },
                );
                assert forall|p: int| INT::MIN <= p < INT::MAX implies #[trigger] coverage_at(
                    s0.insert(t + 1, CoverageSpan { x: nPixelX as int, coverage: coverage as int }),
                    p,
                ) == coverage_at(s0, p) by {
                    if nPixelX <= p < s0[t + 1].x {
                        lemma_span_pixel(s0, t, p);
                    }
                }
            }
            proof {
                lemma_insert_cut(
                    s0,
                    t + 1,
                    CoverageSpan { x: nPixelX as int, coverage: coverage as int },
                );
            }
            pInterval = self.InsertAfter(pInterval, nPixelX, coverage, Ghost(t));
        } else {
            pInterval = self.NextInterval(pInterval, Ghost(t));
            proof {
                lemma_cut_present(s0, t + 1);
            }
        }
        (pInterval, Ghost(t + 1))
    }

    /// Makes the interval `at` end behind its first pixel, by beginning a
    /// new interval there where the next interval begins further on; no
    /// pixel changes its coverage.
    fn EndAfterPixel(&mut self, at: usize, Ghost(t): Ghost<int>)
        requires
            old(self).structure_ok(),
            spans_ok(old(self).spans()),
            old(self).room() >= 1,
            old(self).at_place(at, t),
            0 < t,
        ensures
            final(self).structure_ok(),
            spans_ok(final(self).spans()),
            same_coverage(final(self).spans(), old(self).spans()),
            final(self).room() >= old(self).room() - 1,
            final(self).at_place(at, t),
            final(self).spans()[t] == old(self).spans()[t],
            final(self).spans()[t + 1].x == old(self).spans()[t].x + 1,
            final(self).spans().len() <= old(self).spans().len() + 1,
            cut_added(final(self).spans(), old(self).spans(), old(self).spans()[t].x + 1),
            final(self).same_pool(old(self)),
    {
        let ghost s0 = self.spans();
        proof {
            lemma_span_coverage(s0, t);
        }
        let nPixelX = self.Interval(at).m_nPixelX;
        assert(nPixelX == s0[t].x);
        if nPixelX + 1 != self.NextPixelX(at, Ghost(t)) {
            let coverage = self.Coverage(at, Ghost(t));
            proof {
                lemma_insert_span_all(
                    s0,
                    t,
                    CoverageSpan { x: nPixelX + 1, coverage: coverage as int },
                );
                assert forall|p: int| INT::MIN <= p < INT::MAX implies #[trigger] coverage_at(
                    s0.insert(t + 1, CoverageSpan { x: nPixelX + 1, coverage: coverage as int }),
                    p,
                ) == coverage_at(s0, p) by {
                    if nPixelX + 1 <= p < s0[t + 1].x {
                        lemma_span_pixel(s0, t, p);
                    }
                }
            }
            proof {
                lemma_insert_cut(
                    s0,
                    t + 1,
                    CoverageSpan { x: nPixelX + 1, coverage: coverage as int },
                );
            }
            self.InsertAfter(at, nPixelX + 1, coverage, Ghost(t));
        } else {
            proof {
                lemma_cut_present(s0, t + 1);
            }
        }
    }

    /// Adds `nDelta` to the coverage of the interval `at`.
    fn Raise(&mut self, at: usize, nDelta: INT, Ghost(t): Ghost<int>)
        requires
            old(self).structure_ok(),
            spans_ok(old(self).spans()),
            old(self).at_place(at, t),
            0 < t,
            0 <= nDelta,
            old(self).spans()[t].coverage + nDelta <= c_nShiftSizeSquared,
        ensures
            final(self).structure_ok(),
            spans_ok(final(self).spans()),
            final(self).room() == old(self).room(),
            final(self).order() == old(self).order(),
            final(self).spans().len() == old(self).spans().len(),
            forall|i: int|
                0 <= i < old(self).spans().len() ==> (#[trigger] final(self).spans()[i]).x == old(self).spans()[i].x,
            forall|p: int|
                INT::MIN <= p < INT::MAX ==> #[trigger] coverage_at(final(self).spans(), p)
                    == coverage_at(old(self).spans(), p) + if old(self).spans()[t].x <= p < old(self).spans()[t + 1].x {
                    nDelta as int
                } else {
                    0
                },
            same_cuts(final(self).spans(), old(self).spans()),
            final(self).same_pool(old(self)),
    {
        let ghost s0 = self.spans();
        let coverage = self.Coverage(at, Ghost(t));
        proof {
            lemma_span_coverage(s0, t);
            lemma_recover_span_all(s0, t, coverage + nDelta);
            assert forall|p: int| INT::MIN <= p < INT::MAX implies #[trigger] coverage_at(
                recovered(s0, t, coverage + nDelta),
                p,
            ) == coverage_at(s0, p) + if s0[t].x <= p < s0[t + 1].x {
                nDelta as int
            } else {
                0
            } by {
                if s0[t].x <= p < s0[t + 1].x {
                    lemma_span_pixel(s0, t, p);
                }
            }
        }
        self.SetCoverage(at, coverage + nDelta, Ghost(t));
        proof {
            lemma_same_cuts(self.spans(), s0);
        }
    }
}


impl<'a> CCoverageBuffer<'a> {
    /// Add a subpixel resolution interval to the coverage buffer: every
    /// pixel gains the part of it, in subpixels, that the interval from
    /// `nSubpixelXLeft` to `nSubpixelXRight` covers.
    ///
    /// The interval must not be empty, and it must leave no pixel with more
    /// than 64. Fails with `E_OUTOFMEMORY`, changing no coverage, where a
    /// further buffer is needed and the pool is exhausted.
    ///
    /// A further buffer is gone on to only where fewer than four intervals
    /// are free in the buffer in use ([`CCoverageBuffer::needs_buffer`]),
    /// and taken from the arena only where none is spare.
    ///
    /// The list gains intervals where the added interval begins and ends
    /// ([`interval_cut`]), so that every pixel that it covers in part has an
    /// interval of its own. With the coverage of every pixel this says what
    /// the list is, interval by interval.
    #[verifier::rlimit(40)]
    pub fn AddInterval(&mut self, nSubpixelXLeft: INT, nSubpixelXRight: INT) -> (hr: HRESULT)
        requires
            old(self).wf(),
            nSubpixelXLeft < nSubpixelXRight,
            room_for(old(self).spans(), nSubpixelXLeft as int, nSubpixelXRight as int),
        ensures
            final(self).wf(),
            hr == S_OK <==> !(old(self).needs_buffer() && old(self).exhausted()),
            hr != S_OK ==> hr == E_OUTOFMEMORY && final(self).spans() == old(self).spans() && final(self).exhausted(),
            hr == S_OK ==> interval_added(
                final(self).spans(),
                old(self).spans(),
                nSubpixelXLeft as int,
                nSubpixelXRight as int,
            ),
            hr == S_OK ==> interval_cuts_added(
                final(self).spans(),
                old(self).spans(),
                nSubpixelXLeft as int,
                nSubpixelXRight as int,
            ),
            final(self).spans().len() <= old(self).spans().len() + 4,
            hr == S_OK && old(self).needs_buffer() ==> final(self).went_on(old(self)),
            hr != S_OK || !old(self).needs_buffer() ==> final(self).same_pool(old(self)),
    {
        let ghost s0 = self.spans();
        let ghost l = nSubpixelXLeft as int;
        let ghost r = nSubpixelXRight as int;

        // Make sure we have enough room to add two intervals if
        // necessary:
        if self.m_pIntervalNew >= self.m_pIntervalEndMinus4 {
            let hr = self.Grow();
            if hr != S_OK {
                return hr;
            }
        }
        assert(self.room() >= 4);
        let ghost grown = *self;
        let ghost mut added: Set<int> = Set::empty();
        proof {
            lemma_cuts_none(s0);
        }

        // Convert interval to pixel space so that we can insert it
        // into the coverage buffer
        let nPixelXLeft: INT = FloorShift(nSubpixelXLeft, 3);
        let nPixelXRight: INT = FloorShift(nSubpixelXRight, 3);

        // Compute coverage for left segment as shown by the *'s below
        //
        //  |_____|_____|_____|_
        //  |     |     |     |
        //  |  ***----------  |
        //  |_____|_____|_____|
        let nCoverageLeft: INT = c_nShiftSize - LowBits(nSubpixelXLeft, 3);
        let nCoverageRight: INT = LowBits(nSubpixelXRight, 3);

        // Find the interval of the left pixel, inserting a new interval if
        // necessary:
        let (pIntervalLeft, Ghost(tLeft)) = self.SeekInterval(nPixelXLeft);
        let mut pInterval: usize = pIntervalLeft;
        let ghost mut t: int = tLeft;
        proof {
            lemma_cuts_step(self.spans(), s0, s0, added, nPixelXLeft as int);
            added = added.insert(nPixelXLeft as int);
        }

        // If we have partial coverage, then ensure that we have a position
        // for the end of the pixel
        if nCoverageLeft < c_nShiftSize || nPixelXLeft == nPixelXRight {
            let ghost sought = self.spans();
            self.EndAfterPixel(pInterval, Ghost(t));
            proof {
                lemma_cuts_step(self.spans(), sought, s0, added, nPixelXLeft + 1);
                added = added.insert(nPixelXLeft + 1);
            }
        }
        let ghost s1 = self.spans();
        proof {
            assert forall|p: int| INT::MIN <= p < INT::MAX implies #[trigger] coverage_at(s1, p)
                == coverage_at(s0, p) by {}
            lemma_span_coverage(s1, t);
            lemma_overlap_cases(l, r, nPixelXLeft as int);
            assert(coverage_at(s0, nPixelXLeft as int) + overlap(l, r, nPixelXLeft as int)
                <= c_nShiftSizeSquared);
        }

        // If the interval only includes one pixel, then the coverage is
        // nSubpixelXRight - nSubpixelXLeft
        if nPixelXLeft == nPixelXRight {
            self.Raise(pInterval, nSubpixelXRight - nSubpixelXLeft, Ghost(t));
            proof {
                lemma_cuts_same(self.spans(), s1, s0, added);
                lemma_cuts_interval(self.spans(), s0, added, l, r);
                let s2 = self.spans();
                assert forall|p: int| INT::MIN <= p < INT::MAX implies #[trigger] coverage_at(s2, p)
                    == coverage_at(s0, p) + overlap(l, r, p) by {
                    lemma_overlap_cases(l, r, p);
                    assert(coverage_at(s1, p) == coverage_at(s0, p));
                }
            }
            return S_OK;
        }
        // Update coverage of current interval
        self.Raise(pInterval, nCoverageLeft, Ghost(t));
        proof {
            lemma_cuts_same(self.spans(), s1, s0, added);
            let s2 = self.spans();
            assert forall|p: int| INT::MIN <= p < INT::MAX implies #[trigger] coverage_at(s2, p)
                == coverage_at(s0, p) + run_cover(
                nPixelXLeft as int,
                nCoverageLeft as int,
                s2[t + 1].x,
                p,
            ) by {
                assert(coverage_at(s1, p) == coverage_at(s0, p));
                assert(s2[t + 1].x == s1[t + 1].x);
                assert(s2[t].x == s1[t].x);
                if nCoverageLeft < c_nShiftSize {
                    assert(s1[t + 1].x == nPixelXLeft + 1);
                }
            }
        }

        // Increase the coverage for any intervals between 'nPixelXLeft'
        // and 'nPixelXRight':
        let mut nPixelXNext: INT;
        loop
            invariant
                self.structure_ok(),
                spans_ok(self.spans()),
                spans_ok(s0),
                self.room() >= 2,
                self.at_place(pInterval, t),
                0 < t,
                l == nSubpixelXLeft,
                r == nSubpixelXRight,
                l < r,
                nPixelXLeft == l / 8,
                nPixelXRight == r / 8,
                nCoverageLeft == 8 - l % 8,
                nPixelXLeft < nPixelXRight,
                room_for(s0, l, r),
                nPixelXLeft <= self.spans()[t].x < nPixelXRight,
                self.spans().len() <= s0.len() + 2,
                run_added(
                    self.spans(),
                    s0,
                    nPixelXLeft as int,
                    nCoverageLeft as int,
                    self.spans()[t + 1].x,
                ),
                cuts_are(self.spans(), s0, added),
                self.same_pool(&grown),
                forall|x: int|
                    added.contains(x) <==> x == nPixelXLeft || (x == nPixelXLeft + 1 && l % 8 != 0),
            ensures
                nPixelXNext == self.spans()[t + 1].x,
                nPixelXNext >= nPixelXRight,
            decreases self.spans().len() - t,
        {
            let ghost s2 = self.spans();
            nPixelXNext = self.NextPixelX(pInterval, Ghost(t));
            if !(nPixelXNext < nPixelXRight) {
                break ;
            }
            proof {
                assert(t + 1 < s2.len() - 1) by {
                    if t + 1 == s2.len() - 1 {
                        assert(s2[t + 1].x == INT::MAX);
                    }
                }
                lemma_span_coverage(s2, t + 1);
                lemma_span_coverage(s2, t);
                lemma_span_coverage(s0, 0);
                let p = s2[t + 1].x;
                lemma_overlap_cases(l, r, p);
                assert(coverage_at(s2, p) == coverage_at(s0, p) + run_cover(
                    nPixelXLeft as int,
                    nCoverageLeft as int,
                    s2[t + 1].x,
                    p,
                ));
                assert(coverage_at(s0, p) + overlap(l, r, p) <= c_nShiftSizeSquared);
            }
            pInterval = self.NextInterval(pInterval, Ghost(t));
            proof {
                t = t + 1;
            }
            let ghost reached = self.spans();
            self.Raise(pInterval, c_nShiftSize, Ghost(t));
            proof {
                lemma_cuts_same(self.spans(), reached, s0, added);
                let s3 = self.spans();
                assert(s3[t + 1].x == s2[t + 1].x);
                assert(s3[t].x == s2[t].x);
                assert forall|p: int| INT::MIN <= p < INT::MAX implies #[trigger] coverage_at(s3, p)
                    == coverage_at(s0, p) + run_cover(
                    nPixelXLeft as int,
                    nCoverageLeft as int,
                    s3[t + 1].x,
                    p,
                ) by {
                    assert(coverage_at(s2, p) == coverage_at(s0, p) + run_cover(
                        nPixelXLeft as int,
                        nCoverageLeft as int,
                        s2[t].x,
                        p,
                    ));
                }
            }
        }
        let ghost s4 = self.spans();

        // Insert another new interval if necessary:
        if nPixelXNext != nPixelXRight {
            let coverage = self.Coverage(pInterval, Ghost(t));
            proof {
                lemma_span_coverage(s4, t);
                lemma_span_pixel(s4, t, nPixelXRight as int);
                lemma_coverage_bounded(s0, nPixelXRight as int);
                assert(coverage_at(s4, nPixelXRight as int) == coverage_at(s0, nPixelXRight as int)
                    + run_cover(
                    nPixelXLeft as int,
                    nCoverageLeft as int,
                    s4[t + 1].x,
                    nPixelXRight as int,
                ));
                lemma_insert_span_all(
                    s4,
                    t,
                    CoverageSpan { x: nPixelXRight as int, coverage: coverage - c_nShiftSize },
                );
            }
            pInterval = self.InsertAfter(
                pInterval,
                nPixelXRight,
                coverage - c_nShiftSize,
                Ghost(t),
            );
            proof {
                lemma_insert_cut(
                    s4,
                    t + 1,
                    CoverageSpan { x: nPixelXRight as int, coverage: coverage - c_nShiftSize },
                );
                lemma_cuts_step(self.spans(), s4, s0, added, nPixelXRight as int);
                added = added.insert(nPixelXRight as int);
                let s5 = self.spans();
                assert forall|p: int| INT::MIN <= p < INT::MAX implies #[trigger] coverage_at(s5, p)
                    == coverage_at(s0, p) + run_cover(
                    nPixelXLeft as int,
                    nCoverageLeft as int,
                    nPixelXRight as int,
                    p,
                ) by {
                    assert(coverage_at(s4, p) == coverage_at(s0, p) + run_cover(
                        nPixelXLeft as int,
                        nCoverageLeft as int,
                        s4[t + 1].x,
                        p,
                    ));
                    if nPixelXRight <= p < s4[t + 1].x {
                        lemma_span_pixel(s4, t, p);
                    }
                }
            }
        } else {
            pInterval = self.NextInterval(pInterval, Ghost(t));
            proof {
                lemma_cut_present(s4, t + 1);
                lemma_cuts_step(s4, s4, s0, added, nPixelXRight as int);
                added = added.insert(nPixelXRight as int);
            }
        }
        proof {
            t = t + 1;
        }
        let ghost s6 = self.spans();
        assert(run_added(s6, s0, nPixelXLeft as int, nCoverageLeft as int, nPixelXRight as int));
        assert(s6[t].x == nPixelXRight);

        // Compute coverage for right segment as shown by the *'s below
        //
        //  |_____|_____|_____|_
        //  |     |     |     |
        //  |  ---------****  |
        //  |_____|_____|_____|
        if nCoverageRight > 0 {
            self.EndAfterPixel(pInterval, Ghost(t));
            let ghost s7 = self.spans();
            proof {
                lemma_cuts_step(s7, s6, s0, added, nPixelXRight + 1);
                added = added.insert(nPixelXRight + 1);
                lemma_span_coverage(s7, t);
                lemma_overlap_cases(l, r, nPixelXRight as int);
                assert(coverage_at(s7, nPixelXRight as int) == coverage_at(s6, nPixelXRight as int));
                assert(coverage_at(s6, nPixelXRight as int) == coverage_at(s0, nPixelXRight as int)
                    + run_cover(
                    nPixelXLeft as int,
                    nCoverageLeft as int,
                    nPixelXRight as int,
                    nPixelXRight as int,
                ));
                assert(coverage_at(s0, nPixelXRight as int) + overlap(l, r, nPixelXRight as int)
                    <= c_nShiftSizeSquared);
            }
            self.Raise(pInterval, nCoverageRight, Ghost(t));
            proof {
                lemma_cuts_same(self.spans(), s7, s0, added);
                let s8 = self.spans();
                assert forall|p: int| INT::MIN <= p < INT::MAX implies #[trigger] coverage_at(s8, p)
                    == coverage_at(s0, p) + overlap(l, r, p) by {
                    lemma_overlap_cases(l, r, p);
                    assert(coverage_at(s7, p) == coverage_at(s6, p));
                    assert(coverage_at(s6, p) == coverage_at(s0, p) + run_cover(
                        nPixelXLeft as int,
                        nCoverageLeft as int,
                        nPixelXRight as int,
                        p,
                    ));
                }
            }
        } else {
            proof {
                assert forall|p: int| INT::MIN <= p < INT::MAX implies #[trigger] coverage_at(s6, p)
                    == coverage_at(s0, p) + overlap(l, r, p) by {
                    lemma_overlap_cases(l, r, p);
                    assert(coverage_at(s6, p) == coverage_at(s0, p) + run_cover(
                        nPixelXLeft as int,
                        nCoverageLeft as int,
                        nPixelXRight as int,
                        p,
                    ));
                }
            }
        }
        proof {
            lemma_cuts_interval(self.spans(), s0, added, l, r);
        }
        S_OK
    }
}

} // verus!
