//! Where the intervals of a coverage list begin: the pixels at which the
//! list is cut. With the coverage of every pixel they say what the list is,
//! interval by interval.

use vstd::prelude::*;
use crate::aacoverage::{
    lemma_span_coverage, same_coverage, spans_ascending, spans_ok, CoverageSpan,
};

verus! {

/// The list has an interval that begins at the pixel `x`.
pub open spec fn cut_at(s: Seq<CoverageSpan>, x: int) -> bool {
    exists|i: int| 0 <= i < s.len() && (#[trigger] s[i]).x == x
}

/// The intervals of the list `s` begin where those of the list `s0` begin.
pub closed spec fn same_cuts(s: Seq<CoverageSpan>, s0: Seq<CoverageSpan>) -> bool {
    forall|x: int| #[trigger] cut_at(s, x) <==> cut_at(s0, x)
}

/// The intervals of the list `s` begin where those of the list `s0` begin,
/// and at the pixel `at`.
pub closed spec fn cut_added(s: Seq<CoverageSpan>, s0: Seq<CoverageSpan>, at: int) -> bool {
    forall|x: int| #[trigger] cut_at(s, x) <==> cut_at(s0, x) || x == at
}

/// Adding the subpixel interval from `l` to `r` makes an interval of the
/// list begin at the pixel `x`: at the pixel of `l`; behind it, where the
/// interval covers that pixel in part or ends in it; and, where it ends in
/// another pixel, at that pixel, and behind it where it covers a part of
/// it.
pub open spec fn interval_cut(l: int, r: int, x: int) -> bool {
    let left = l / 8;
    let right = r / 8;
    ||| x == left
    ||| x == left + 1 && (l % 8 != 0 || left == right)
    ||| left < right && x == right
    ||| left < right && x == right + 1 && r % 8 != 0
}

/// The intervals of the list `s` begin where those of the list `s0` begin,
/// and where adding the subpixel interval from `l` to `r` makes them begin.
pub closed spec fn interval_cuts_added(s: Seq<CoverageSpan>, s0: Seq<CoverageSpan>, l: int, r: int) -> bool {
    forall|x: int| #[trigger] cut_at(s, x) <==> cut_at(s0, x) || interval_cut(l, r, x)
}

/// One more interval in a list begins at one more pixel.
pub proof fn lemma_insert_cut(s: Seq<CoverageSpan>, i: int, span: CoverageSpan)
    requires
        0 <= i <= s.len(),
    ensures
        cut_added(s.insert(i, span), s, span.x),
{
    let longer = s.insert(i, span);
    assert forall|x: int| #[trigger] cut_at(longer, x) <==> cut_at(s, x) || x == span.x by {
        if cut_at(longer, x) {
            let j = choose|j: int| 0 <= j < longer.len() && (#[trigger] longer[j]).x == x;
            if j < i {
                assert(s[j].x == x);
            } else if j > i {
                assert(s[j - 1].x == x);
            }
        }
        if cut_at(s, x) {
            let j = choose|j: int| 0 <= j < s.len() && (#[trigger] s[j]).x == x;
            if j < i {
                assert(longer[j].x == x);
            } else {
                assert(longer[j + 1].x == x);
            }
        }
        if x == span.x {
            assert(longer[i].x == x);
        }
    }
}

/// Lists whose intervals begin at the same pixels, one by one, begin at the
/// same pixels.
pub proof fn lemma_same_cuts(s: Seq<CoverageSpan>, s0: Seq<CoverageSpan>)
    requires
        s.len() == s0.len(),
        forall|i: int| 0 <= i < s0.len() ==> (#[trigger] s[i]).x == s0[i].x,
    ensures
        same_cuts(s, s0),
{
    assert forall|x: int| #[trigger] cut_at(s, x) <==> cut_at(s0, x) by {
        if cut_at(s, x) {
            let j = choose|j: int| 0 <= j < s.len() && (#[trigger] s[j]).x == x;
            assert(s0[j].x == x);
        }
        if cut_at(s0, x) {
            let j = choose|j: int| 0 <= j < s0.len() && (#[trigger] s0[j]).x == x;
            assert(s[j].x == x);
        }
    }
}

/// A pixel at which the list is cut already adds nothing.
pub proof fn lemma_cut_present(s: Seq<CoverageSpan>, i: int)
    requires
        0 <= i < s.len(),
    ensures
        cut_added(s, s, s[i].x),
{
}

/// The intervals of the list `s` begin where those of the list `s0` begin,
/// and at the pixels `added`.
pub closed spec fn cuts_are(s: Seq<CoverageSpan>, s0: Seq<CoverageSpan>, added: Set<int>) -> bool {
    forall|x: int| #[trigger] cut_at(s, x) <==> cut_at(s0, x) || added.contains(x)
}

/// What it is for the list `s` to begin where the list `s0` begins and at
/// the pixels `added`.
pub proof fn lemma_cuts_are(s: Seq<CoverageSpan>, s0: Seq<CoverageSpan>, added: Set<int>)
    ensures
        cuts_are(s, s0, added) <==> (forall|x: int|
            #[trigger] cut_at(s, x) <==> cut_at(s0, x) || added.contains(x)),
{
}

/// What it is for two lists to begin at the same pixels.
pub proof fn lemma_same_cuts_are(s: Seq<CoverageSpan>, s0: Seq<CoverageSpan>)
    ensures
        same_cuts(s, s0) <==> (forall|x: int| #[trigger] cut_at(s, x) <==> cut_at(s0, x)),
{
}

/// A list begins where it begins.
pub proof fn lemma_cuts_none(s: Seq<CoverageSpan>)
    ensures
        cuts_are(s, s, Set::empty()),
{
}

/// One more pixel at which the list is cut.
pub proof fn lemma_cuts_step(
    s2: Seq<CoverageSpan>,
    s1: Seq<CoverageSpan>,
    s0: Seq<CoverageSpan>,
    added: Set<int>,
    at: int,
)
    requires
        cuts_are(s1, s0, added),
        cut_added(s2, s1, at),
    ensures
        cuts_are(s2, s0, added.insert(at)),
{
    assert forall|x: int| #[trigger] cut_at(s2, x) <==> cut_at(s0, x) || added.insert(at).contains(
        x,
    ) by {
        assert(cut_at(s1, x) <==> cut_at(s0, x) || added.contains(x));
    }
}

/// A list that is cut as before.
pub proof fn lemma_cuts_same(
    s2: Seq<CoverageSpan>,
    s1: Seq<CoverageSpan>,
    s0: Seq<CoverageSpan>,
    added: Set<int>,
)
    requires
        cuts_are(s1, s0, added),
        same_cuts(s2, s1),
    ensures
        cuts_are(s2, s0, added),
{
    assert forall|x: int| #[trigger] cut_at(s2, x) <==> cut_at(s0, x) || added.contains(x) by {
        assert(cut_at(s1, x) <==> cut_at(s0, x) || added.contains(x));
    }
}

/// The pixels at which the list was cut are those of an added interval.
pub proof fn lemma_cuts_interval(
    s: Seq<CoverageSpan>,
    s0: Seq<CoverageSpan>,
    added: Set<int>,
    l: int,
    r: int,
)
    requires
        cuts_are(s, s0, added),
        forall|x: int| added.contains(x) <==> interval_cut(l, r, x),
    ensures
        interval_cuts_added(s, s0, l, r),
{
}

/// What it is for the list `s` to begin where the list `s0` begins and
/// where an added interval makes it begin.
pub proof fn lemma_interval_cuts(s: Seq<CoverageSpan>, s0: Seq<CoverageSpan>, l: int, r: int)
    ensures
        interval_cuts_added(s, s0, l, r) <==> (forall|x: int|
            #[trigger] cut_at(s, x) <==> cut_at(s0, x) || interval_cut(l, r, x)),
{
}


/// Two lists in ascending order that are cut at the same pixels are cut at
/// the same pixels interval by interval.
proof fn lemma_cuts_in_step(a: Seq<CoverageSpan>, b: Seq<CoverageSpan>, k: int)
    requires
        spans_ascending(a),
        spans_ascending(b),
        same_cuts(a, b),
        0 <= k < a.len(),
    ensures
        k < b.len(),
        a[k].x == b[k].x,
    decreases k,
{
    assert(cut_at(a, a[k].x));
    assert(cut_at(b, a[k].x));
    let j = choose|j: int| 0 <= j < b.len() && (#[trigger] b[j]).x == a[k].x;
    if j < k {
        lemma_cuts_in_step(a, b, j);
    } else if j > k {
        assert(cut_at(b, b[k].x));
        assert(cut_at(a, b[k].x));
        let m = choose|m: int| 0 <= m < a.len() && (#[trigger] a[m]).x == b[k].x;
        assert(b[k].x < b[j].x);
        if m < k {
            lemma_cuts_in_step(a, b, m);
        } else if m > k {
            assert(a[k].x < a[m].x);
        }
    }
}

/// Where a list is cut, and what it covers of every pixel, says what the
/// list is: two well-formed lists that are cut at the same pixels and
/// cover every pixel alike are one list.
pub proof fn lemma_list_determined(a: Seq<CoverageSpan>, b: Seq<CoverageSpan>)
    requires
        spans_ok(a),
        spans_ok(b),
        same_cuts(a, b),
        same_coverage(a, b),
    ensures
        a == b,
{
    assert(same_cuts(b, a));
    lemma_cuts_in_step(a, b, a.len() - 1);
    lemma_cuts_in_step(b, a, b.len() - 1);
    assert forall|k: int| 0 <= k < a.len() implies a[k] == b[k] by {
        lemma_cuts_in_step(a, b, k);
        if k < a.len() - 1 {
            lemma_span_coverage(a, k);
            lemma_span_coverage(b, k);
        }
    }
    assert(a =~= b);
}


/// The pixels at which adding the subpixel interval from `l` to `r` cuts a
/// list.
pub open spec fn interval_cut_set(l: int, r: int) -> Set<int> {
    Set::new(|x: int| interval_cut(l, r, x))
}

/// An added interval cuts the list at its pixels.
pub proof fn lemma_cuts_add(
    s2: Seq<CoverageSpan>,
    s1: Seq<CoverageSpan>,
    s0: Seq<CoverageSpan>,
    added: Set<int>,
    l: int,
    r: int,
)
    requires
        cuts_are(s1, s0, added),
        interval_cuts_added(s2, s1, l, r),
    ensures
        cuts_are(s2, s0, added.union(interval_cut_set(l, r))),
{
    assert forall|x: int| #[trigger] cut_at(s2, x) <==> cut_at(s0, x) || added.union(
        interval_cut_set(l, r),
    ).contains(x) by {
        assert(cut_at(s1, x) <==> cut_at(s0, x) || added.contains(x));
    }
}

} // verus!
