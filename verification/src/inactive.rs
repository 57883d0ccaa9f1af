//! The inactive edge array: one entry per edge with a key that packs the
//! first scanline and the x of the edge, sorted by that key.

use vstd::prelude::*;
use vstd::seq_lib::{lemma_multiset_commutative, to_multiset_update};
use crate::aarasterizer::{edge_wf, flat_edges, CEdge, CEdgeStore, EDGE_STORE_LIMIT};
use crate::activelist::{inactive_ready, lemma_edge_x_bounded, CEdgeTable, UNLINKED};
use crate::types::{INT, LONGLONG, UINT};

verus! {

/// Subtables of at most this many entries are left to the insertion sort.
pub const QUICKSORT_THRESHOLD: usize = 8;

/// Index of the head sentinel in an edge table.
pub const HEAD_EDGE: usize = 0;

/// Index of the tail sentinel in an edge table.
pub const TAIL_EDGE: usize = 1;

/// An entry of the inactive edge array.
#[derive(Clone, Copy, Debug)]
pub struct CInactiveEdge {
    /// Index of the associated edge in the edge table.
    pub Edge: usize,
    /// Sorting key, StartY and X packed into one 64-bit word.
    pub Yx: LONGLONG,
}

/// The sorting key of an edge that starts on scanline `y` at `x`: `y` in the
/// high half, `x` biased by `INT_MAX` in the low half.
pub open spec fn yx_key(x: int, y: int) -> int {
    y * 0x1_0000_0000 + (x + 0x7fff_ffff)
}

/// Numeric order on the keys is the order by scanline first and x second.
pub proof fn lemma_yx_key_order(x1: int, y1: int, x2: int, y2: int)
    requires
        -0x7fff_ffff <= x1 <= 0x7fff_ffff,
        -0x7fff_ffff <= x2 <= 0x7fff_ffff,
    ensures
        yx_key(x1, y1) <= yx_key(x2, y2) <==> (y1 < y2 || (y1 == y2 && x1 <= x2)),
        yx_key(x1, y1) == yx_key(x2, y2) <==> (y1 == y2 && x1 == x2),
{
}

/// We want to sort in the inactive list; the primary key is 'y', and
/// the secondary key is 'x'.  This routine creates a single LONGLONG
/// key that represents both.
pub fn YX(x: INT, y: INT, p: &mut LONGLONG)
    requires
        -0x7fff_ffff <= x,
    ensures
        *final(p) == yx_key(x as int, y as int),
{
    // Bias 'x' by INT_MAX so that it's effectively unsigned:
    *p = (y as LONGLONG) * 0x1_0000_0000 + (x as LONGLONG + 0x7fff_ffff);
}

/// The sequence with the entries at `i` and `j` exchanged.
pub open spec fn swapped(s: Seq<CInactiveEdge>, i: int, j: int) -> Seq<CInactiveEdge> {
    s.update(i, s[j]).update(j, s[i])
}

/// Exchanging two entries of a range keeps what the range holds.
pub proof fn lemma_swap_range(s: Seq<CInactiveEdge>, i: int, j: int, f: int, l: int)
    requires
        0 <= f <= i <= l < s.len(),
        f <= j <= l,
    ensures
        swapped(s, i, j).subrange(f, l + 1).to_multiset() == s.subrange(f, l + 1).to_multiset(),
{
    broadcast use vstd::seq_lib::group_to_multiset_ensures;
    broadcast use vstd::multiset::group_multiset_axioms;

    let r = s.subrange(f, l + 1);
    let t = r.update(i - f, r[j - f]);
    assert(r.contains(r[i - f]));
    assert(r.contains(r[j - f]));
    to_multiset_update(r, i - f, r[j - f]);
    to_multiset_update(t, j - f, r[i - f]);
    assert(swapped(s, i, j).subrange(f, l + 1) =~= t.update(j - f, r[i - f]));
    if i == j {
        assert(t.update(j - f, r[i - f]) =~= r);
    } else {
        assert(t[j - f] == r[j - f]);
        assert(r.to_multiset().insert(r[j - f]).remove(r[i - f]).insert(r[i - f]).remove(r[j - f])
            =~= r.to_multiset());
    }
}

/// Every entry of the range has a key of at most `v`.
pub open spec fn keys_le(s: Seq<CInactiveEdge>, a: int, b: int, v: int) -> bool {
    forall|k: int| a <= k < b ==> (#[trigger] s[k]).Yx <= v
}

/// Every entry of the range has a key of at least `v`.
pub open spec fn keys_ge(s: Seq<CInactiveEdge>, a: int, b: int, v: int) -> bool {
    forall|k: int| a <= k < b ==> (#[trigger] s[k]).Yx >= v
}

/// Outside the range from `f` to `l` the two sequences agree.
pub open spec fn same_outside(s: Seq<CInactiveEdge>, t: Seq<CInactiveEdge>, f: int, l: int) -> bool {
    &&& s.len() == t.len()
    &&& forall|k: int| 0 <= k < s.len() && !(f <= k <= l) ==> #[trigger] s[k] == t[k]
}

/// What the quicksort leaves: entries that are [`QUICKSORT_THRESHOLD`] or
/// more places apart are in order.
pub open spec fn threshold_sorted(s: Seq<CInactiveEdge>, f: int, l: int) -> bool {
    forall|i: int, j: int|
        f <= i && i + QUICKSORT_THRESHOLD <= j && j <= l ==> (#[trigger] s[i]).Yx <= (
        #[trigger] s[j]).Yx
}

/// The entries from `f` to `l` are in ascending order of their keys.
pub open spec fn sorted_range(s: Seq<CInactiveEdge>, f: int, l: int) -> bool {
    forall|i: int, j: int| f <= i <= j <= l ==> (#[trigger] s[i]).Yx <= (#[trigger] s[j]).Yx
}

/// A bound on the keys of a range holds of any rearrangement of the range.
pub proof fn lemma_bounds_kept(
    s: Seq<CInactiveEdge>,
    t: Seq<CInactiveEdge>,
    f: int,
    l: int,
    lo: int,
    hi: int,
)
    requires
        0 <= f <= l + 1 <= s.len(),
        s.len() == t.len(),
        s.subrange(f, l + 1).to_multiset() == t.subrange(f, l + 1).to_multiset(),
        keys_ge(s, f, l + 1, lo),
        keys_le(s, f, l + 1, hi),
    ensures
        keys_ge(t, f, l + 1, lo),
        keys_le(t, f, l + 1, hi),
{
    broadcast use vstd::seq_lib::group_to_multiset_ensures;

    let a = s.subrange(f, l + 1);
    let b = t.subrange(f, l + 1);
    assert forall|k: int| f <= k < l + 1 implies lo <= (#[trigger] t[k]).Yx <= hi by {
        assert(b[k - f] == t[k]);
        assert(b.contains(b[k - f]));
        assert(b.to_multiset().count(t[k]) > 0);
        assert(a.contains(t[k]));
        let w = choose|w: int| 0 <= w < a.len() && a[w] == t[k];
        assert(a[w] == s[w + f]);
    }
}

/// A range holds what its two parts hold.
pub proof fn lemma_range_split(s: Seq<CInactiveEdge>, f: int, m: int, l: int)
    requires
        0 <= f <= m <= l + 1 <= s.len(),
    ensures
        s.subrange(f, l + 1).to_multiset() == s.subrange(f, m).to_multiset().add(
            s.subrange(m, l + 1).to_multiset(),
        ),
{
    lemma_multiset_commutative(s.subrange(f, m), s.subrange(m, l + 1));
    assert(s.subrange(f, l + 1) =~= s.subrange(f, m) + s.subrange(m, l + 1));
}

/// Rearranging a part of a range rearranges the range.
pub proof fn lemma_part_rearranged(
    s: Seq<CInactiveEdge>,
    t: Seq<CInactiveEdge>,
    f: int,
    a: int,
    b: int,
    l: int,
)
    requires
        0 <= f <= a <= b + 1 <= l + 1 <= s.len(),
        same_outside(s, t, a, b),
        s.subrange(a, b + 1).to_multiset() == t.subrange(a, b + 1).to_multiset(),
    ensures
        s.subrange(f, l + 1).to_multiset() == t.subrange(f, l + 1).to_multiset(),
{
    lemma_range_split(s, f, a, l);
    lemma_range_split(t, f, a, l);
    lemma_range_split(s, a, b + 1, l);
    lemma_range_split(t, a, b + 1, l);
    assert(s.subrange(f, a) =~= t.subrange(f, a));
    assert(s.subrange(b + 1, l + 1) =~= t.subrange(b + 1, l + 1));
}

/// Exchanges the entries at `i` and `j`.
pub fn SwapEntries(inactive: &mut Vec<CInactiveEdge>, i: usize, j: usize)
    requires
        i < old(inactive)@.len(),
        j < old(inactive)@.len(),
    ensures
        final(inactive)@ == swapped(old(inactive)@, i as int, j as int),
{
    let first = inactive[i];
    let second = inactive[j];
    inactive[i] = second;
    inactive[j] = first;
}


/// `t` holds in the range from `f` to `l` what `s` holds there, in some
/// order, and is `s` elsewhere.
pub open spec fn rearranged(s: Seq<CInactiveEdge>, t: Seq<CInactiveEdge>, f: int, l: int) -> bool {
    &&& same_outside(s, t, f, l)
    &&& s.subrange(f, l + 1).to_multiset() == t.subrange(f, l + 1).to_multiset()
}

/// Exchanging two entries of the range of a rearrangement gives a
/// rearrangement.
pub proof fn lemma_rearranged_swap(
    s: Seq<CInactiveEdge>,
    t: Seq<CInactiveEdge>,
    i: int,
    j: int,
    f: int,
    l: int,
)
    requires
        rearranged(s, t, f, l),
        0 <= f <= i <= l < t.len(),
        f <= j <= l,
    ensures
        rearranged(s, swapped(t, i, j), f, l),
{
    lemma_swap_range(t, i, j, f, l);
}

/// Rearranging a part of the range of a rearrangement gives a
/// rearrangement.
pub proof fn lemma_rearranged_part(
    s: Seq<CInactiveEdge>,
    t: Seq<CInactiveEdge>,
    u: Seq<CInactiveEdge>,
    f: int,
    a: int,
    b: int,
    l: int,
)
    requires
        rearranged(s, t, f, l),
        rearranged(t, u, a, b),
        0 <= f <= a <= b + 1 <= l + 1 <= s.len(),
    ensures
        rearranged(s, u, f, l),
{
    lemma_part_rearranged(t, u, f, a, b, l);
}

/// Moves the median of the first, middle and last entry of the range to a
/// place `j` such that no entry before it has a larger key and no entry
/// after it a smaller one.
pub fn PartitionEdges(inactive: &mut Vec<CInactiveEdge>, f: usize, l: usize) -> (j: usize)
    requires
        f + 2 <= l < old(inactive)@.len(),
    ensures
        f <= j <= l,
        rearranged(old(inactive)@, final(inactive)@, f as int, l as int),
        keys_le(final(inactive)@, f as int, j as int, final(inactive)@[j as int].Yx as int),
        keys_ge(final(inactive)@, j + 1, l + 1, final(inactive)@[j as int].Yx as int),
{
    let ghost s0 = inactive@;
    assert(rearranged(s0, s0, f as int, l as int));

    // Find the median of the first, middle, and last elements:
    let m: usize = f + (l - f) / 2;
    proof {
        lemma_rearranged_swap(s0, inactive@, f + 1, m as int, f as int, l as int);
    }
    SwapEntries(inactive, f + 1, m);
    if inactive[f + 1].Yx > inactive[l].Yx {
        proof {
            lemma_rearranged_swap(s0, inactive@, f + 1, l as int, f as int, l as int);
        }
        SwapEntries(inactive, f + 1, l);
    }
    if inactive[f].Yx > inactive[l].Yx {
        proof {
            lemma_rearranged_swap(s0, inactive@, f as int, l as int, f as int, l as int);
        }
        SwapEntries(inactive, f, l);
    }
    if inactive[f + 1].Yx > inactive[f].Yx {
        proof {
            lemma_rearranged_swap(s0, inactive@, f + 1, f as int, f as int, l as int);
        }
        SwapEntries(inactive, f + 1, f);
    }
    // The first entry is now the desired median, with the second entry
    // no larger and the last no smaller:
    assert(inactive@[f + 1].Yx <= inactive@[f as int].Yx <= inactive@[l as int].Yx);
    let median: LONGLONG = inactive[f].Yx;

    let mut i: usize = f + 2;
    while inactive[i].Yx < median
        invariant
            f + 2 <= i <= l < inactive@.len(),
            inactive@[l as int].Yx >= median,
            inactive@[f + 1].Yx <= median,
            keys_le(inactive@, f + 1, i as int, median as int),
        decreases l - i,
    {
        i += 1;
    }
    let mut j: usize = l - 1;
    while inactive[j].Yx > median
        invariant
            f + 1 <= j <= l - 1,
            l < inactive@.len(),
            inactive@[f + 1].Yx <= median,
            keys_ge(inactive@, j + 1, l + 1, median as int),
        decreases j,
    {
        j -= 1;
    }
    while i < j
        invariant
            f + 2 <= i <= l < inactive@.len(),
            f + 1 <= j <= l - 1,
            rearranged(s0, inactive@, f as int, l as int),
            inactive@[f as int].Yx == median,
            inactive@[i as int].Yx >= median,
            inactive@[j as int].Yx <= median,
            keys_le(inactive@, f + 1, i as int, median as int),
            keys_ge(inactive@, j + 1, l + 1, median as int),
        decreases l + j - i,
    {
        proof {
            lemma_rearranged_swap(s0, inactive@, i as int, j as int, f as int, l as int);
        }
        SwapEntries(inactive, i, j);
        let ghost i0 = i;
        let ghost j0 = j;
        i += 1;
        while inactive[i].Yx < median
            invariant
                i0 < i <= j0 < inactive@.len(),
                inactive@[j0 as int].Yx >= median,
                keys_le(inactive@, f + 1, i as int, median as int),
            decreases j0 - i,
        {
            i += 1;
        }
        j -= 1;
        while inactive[j].Yx > median
            invariant
                i0 <= j < j0 < inactive@.len(),
                j0 <= l - 1,
                inactive@[i0 as int].Yx <= median,
                keys_ge(inactive@, j + 1, l + 1, median as int),
            decreases j - i0,
        {
            j -= 1;
        }
    }
    proof {
        lemma_rearranged_swap(s0, inactive@, f as int, j as int, f as int, l as int);
    }
    SwapEntries(inactive, f, j);
    j
}

/// Around a pivot at `p` that separates smaller from larger keys, two parts
/// that are in order beyond the threshold, or too short for it to matter,
/// make a range that is in order beyond the threshold.
pub proof fn lemma_threshold_sorted_around(s: Seq<CInactiveEdge>, f: int, p: int, l: int)
    requires
        0 <= f <= p <= l < s.len(),
        keys_le(s, f, p, s[p].Yx as int),
        keys_ge(s, p + 1, l + 1, s[p].Yx as int),
        threshold_sorted(s, f, p - 1) || p - f <= QUICKSORT_THRESHOLD,
        threshold_sorted(s, p + 1, l) || l - p <= QUICKSORT_THRESHOLD,
    ensures
        threshold_sorted(s, f, l),
{
    assert forall|i: int, j: int|
        f <= i && i + QUICKSORT_THRESHOLD <= j && j <= l implies (#[trigger] s[i]).Yx <= (
    #[trigger] s[j]).Yx by {
        if j < p {
        } else if i > p {
        } else {
            assert(s[i].Yx <= s[p].Yx);
            assert(s[p].Yx <= s[j].Yx);
        }
    }
}

/// A range that was in order beyond the threshold stays so where nothing in
/// it changed.
pub proof fn lemma_threshold_sorted_frame(
    s: Seq<CInactiveEdge>,
    t: Seq<CInactiveEdge>,
    f: int,
    l: int,
    a: int,
    b: int,
)
    requires
        same_outside(s, t, a, b),
        0 <= f,
        l < s.len(),
        b < f || l < a,
        threshold_sorted(s, f, l),
    ensures
        threshold_sorted(t, f, l),
{
    assert forall|i: int, j: int|
        f <= i && i + QUICKSORT_THRESHOLD <= j && j <= l implies (#[trigger] t[i]).Yx <= (
    #[trigger] t[j]).Yx by {
        assert(s[i] == t[i]);
        assert(s[j] == t[j]);
        assert(s[i].Yx <= s[j].Yx);
    }
}

/// Sorts one part of a partitioned range, keeping the partition.
fn SortPart(
    inactive: &mut Vec<CInactiveEdge>,
    f: usize,
    l: usize,
    a: usize,
    b: usize,
    Ghost(p): Ghost<int>,
    Ghost(s0): Ghost<Seq<CInactiveEdge>>,
)
    requires
        f <= p <= l < old(inactive)@.len(),
        (a == f && b + 1 == p) || (a == p + 1 && b == l),
        a + 2 <= b,
        rearranged(s0, old(inactive)@, f as int, l as int),
        keys_le(old(inactive)@, f as int, p, old(inactive)@[p].Yx as int),
        keys_ge(old(inactive)@, p + 1, l + 1, old(inactive)@[p].Yx as int),
    ensures
        rearranged(s0, final(inactive)@, f as int, l as int),
        rearranged(old(inactive)@, final(inactive)@, a as int, b as int),
        final(inactive)@[p] == old(inactive)@[p],
        keys_le(final(inactive)@, f as int, p, final(inactive)@[p].Yx as int),
        keys_ge(final(inactive)@, p + 1, l + 1, final(inactive)@[p].Yx as int),
        threshold_sorted(final(inactive)@, a as int, b as int),
    decreases b - a, 2int,
{
    let ghost s1 = inactive@;
    QuickSortEdges(inactive, a, b);
    proof {
        let s2 = inactive@;
        let pivot = s1[p].Yx as int;
        lemma_rearranged_part(s0, s1, s2, f as int, a as int, b as int, l as int);
        assert(s2[p] == s1[p]);
        if a == f {
            lemma_bounds_kept(s1, s2, a as int, b as int, -0x8000_0000_0000_0000, pivot);
            assert forall|k: int| p + 1 <= k < l + 1 implies (#[trigger] s2[k]).Yx >= pivot by {
                assert(s1[k] == s2[k]);
            }
        } else {
            lemma_bounds_kept(s1, s2, a as int, b as int, pivot, 0x7fff_ffff_ffff_ffff);
            assert forall|k: int| f <= k < p implies (#[trigger] s2[k]).Yx <= pivot by {
                assert(s1[k] == s2[k]);
            }
        }
    }
}

/// Recursive function to quick-sort our inactive edge list.  Note that
/// for performance, the results are not completely sorted; an insertion
/// sort has to be run after the quicksort in order to do a lighter-weight
/// sort of the subtables.
pub fn QuickSortEdges(inactive: &mut Vec<CInactiveEdge>, f: usize, l: usize)
    requires
        f + 2 <= l < old(inactive)@.len(),
    ensures
        rearranged(old(inactive)@, final(inactive)@, f as int, l as int),
        threshold_sorted(final(inactive)@, f as int, l as int),
    decreases l - f, 1int,
{
    let ghost s0 = inactive@;
    let j = PartitionEdges(inactive, f, l);
    let a: usize = j - f;
    let b: usize = l - j;

    // Use less stack space by recursing on the shorter subtable.  Also,
    // have the less-overhead insertion-sort handle small subtables.
    if a <= b {
        if a > QUICKSORT_THRESHOLD {
            // 'a' is the smallest, so do it first:
            SortPart(inactive, f, l, f, j - 1, Ghost(j as int), Ghost(s0));
            let ghost s1 = inactive@;
            SortPart(inactive, f, l, j + 1, l, Ghost(j as int), Ghost(s0));
            proof {
                lemma_threshold_sorted_frame(s1, inactive@, f as int, j - 1, j + 1, l as int);
            }
        } else if b > QUICKSORT_THRESHOLD {
            SortPart(inactive, f, l, j + 1, l, Ghost(j as int), Ghost(s0));
        }
    } else {
        if b > QUICKSORT_THRESHOLD {
            // 'b' is the smallest, so do it first:
            SortPart(inactive, f, l, j + 1, l, Ghost(j as int), Ghost(s0));
            let ghost s1 = inactive@;
            SortPart(inactive, f, l, f, j - 1, Ghost(j as int), Ghost(s0));
            proof {
                lemma_threshold_sorted_frame(s1, inactive@, j + 1, l as int, f as int, j - 1);
            }
        } else if a > QUICKSORT_THRESHOLD {
            SortPart(inactive, f, l, f, j - 1, Ghost(j as int), Ghost(s0));
        }
    }
    proof {
        lemma_threshold_sorted_around(inactive@, f as int, j as int, l as int);
    }
}


/// Do a sort of the inactive table using an insertion-sort.  Expects
/// large tables to have already been sorted via quick-sort.
///
/// The entries are those from index 1 to `count`; the entry at index 0 is
/// the head sentinel, whose key is the smallest there is, so that the inner
/// loop needs no bounds check. Entries with the same key keep their order
/// ([`stably_placed`]).
pub fn InsertionSortEdges(inactive: &mut Vec<CInactiveEdge>, count: usize)
    requires
        count < old(inactive)@.len(),
        old(inactive)@[0].Yx == LONGLONG::MIN,
    ensures
        rearranged(old(inactive)@, final(inactive)@, 1, count as int),
        sorted_range(final(inactive)@, 1, count as int),
        exists|from: Seq<int>| stably_placed(old(inactive)@, final(inactive)@, from, count as int),
{
    let ghost s0 = inactive@;
    let length: usize = inactive.len();
    let ghost mut from: Seq<int> = Seq::new(s0.len(), |k: int| k);
    if count < 2 {
        // A table of one entry is by definition already in order.
        assert(stably_placed(s0, inactive@, from, count as int));
        return ;
    }
    // Skip first entry (by definition it's already in order!)
    let mut index: usize = 2;
    while index <= count
        invariant
            2 <= index <= count + 1,
            count < inactive@.len(),
            inactive@.len() == length,
            inactive@[0].Yx == LONGLONG::MIN,
            rearranged(s0, inactive@, 1, count as int),
            sorted_range(inactive@, 1, index - 1),
            placed(s0, inactive@, from, count as int, index as int),
        decreases count + 1 - index,
    {
        let mut p: usize = index;

        // Copy the current stuff to temporary variables to make a hole:
        let e = inactive[index];
        let y = e.Yx;
        assert(inactive@.update(p as int, e) =~= inactive@);

        // Shift everything one slot to the right (effectively moving
        // the hole one position to the left):
        while y < inactive[p - 1].Yx
            invariant
                1 <= p <= index <= count < inactive@.len(),
                inactive@.len() == length,
                inactive@[0].Yx == LONGLONG::MIN,
                y == e.Yx,
                rearranged(s0, inactive@.update(p as int, e), 1, count as int),
                forall|i: int, j: int|
                    1 <= i <= j <= index && i != p && j != p ==> (#[trigger] inactive@[i]).Yx <= (
                    #[trigger] inactive@[j]).Yx,
                forall|k: int| p < k <= index ==> (#[trigger] inactive@[k]).Yx > y,
                placed(s0, inactive@.update(p as int, e), from, count as int, index + 1),
                from[p as int] == index,
            decreases p,
        {
            let ghost before = inactive@;
            let previous = inactive[p - 1];
            inactive[p] = previous;
            proof {
                let filled = before.update(p as int, e);
                lemma_rearranged_swap(s0, filled, p - 1, p as int, 1, count as int);
                assert(inactive@.update(p - 1, e) =~= swapped(filled, p - 1, p as int));
                let moved = from.update(p as int, from[p - 1]).update(p - 1, index as int);
                lemma_placed_swap(s0, filled, from, count as int, index + 1, p as int);
                from = moved;
            }
            p -= 1;
        }
        // Drop the temporary stuff into the final hole:
        inactive[p] = e;
        index += 1;
    }
    assert(stably_placed(s0, inactive@, from, count as int));
}

/// Entry `k` of `t` is entry `from[k]` of `s`, for every `k` from 1 to
/// `count`; no entry of `s` is taken twice; and of two entries of `t` with
/// the same key the one that comes first came first in `s`.
pub open spec fn stably_placed(
    s: Seq<CInactiveEdge>,
    t: Seq<CInactiveEdge>,
    from: Seq<int>,
    count: int,
) -> bool {
    placed(s, t, from, count, count + 1)
}

/// [`stably_placed`] while the entries from `index` on are still in their
/// places, and those before it are the entries that were before it.
pub open spec fn placed(
    s: Seq<CInactiveEdge>,
    t: Seq<CInactiveEdge>,
    from: Seq<int>,
    count: int,
    index: int,
) -> bool {
    &&& from.len() == s.len()
    &&& t.len() == s.len()
    &&& count < s.len()
    &&& forall|k: int| 1 <= k <= count ==> 1 <= #[trigger] from[k] <= count && t[k] == s[from[k]]
    &&& forall|k: int| 1 <= k < index && k <= count ==> #[trigger] from[k] < index
    &&& forall|k: int| index <= k <= count ==> #[trigger] from[k] == k
    &&& forall|i: int, j: int|
        1 <= i < j <= count ==> #[trigger] from[i] != #[trigger] from[j]
    &&& forall|i: int, j: int|
        1 <= i < j <= count && j < index && t[i].Yx == t[j].Yx ==> #[trigger] from[i]
            < #[trigger] from[j]
}

/// Moving the entry before the hole into the hole, past an entry with a
/// smaller key, keeps the entries stably placed.
pub proof fn lemma_placed_swap(
    s: Seq<CInactiveEdge>,
    filled: Seq<CInactiveEdge>,
    from: Seq<int>,
    count: int,
    index: int,
    p: int,
)
    requires
        placed(s, filled, from, count, index),
        1 < p < index <= count + 1,
        filled[p].Yx < filled[p - 1].Yx,
    ensures
        placed(
            s,
            swapped(filled, p - 1, p),
            from.update(p, from[p - 1]).update(p - 1, from[p]),
            count,
            index,
        ),
{
    let t = swapped(filled, p - 1, p);
    let moved = from.update(p, from[p - 1]).update(p - 1, from[p]);
    assert forall|i: int, j: int| 1 <= i < j <= count implies #[trigger] moved[i]
        != #[trigger] moved[j] by {
        let a = if i == p {
            p - 1
        } else if i == p - 1 {
            p
        } else {
            i
        };
        let b = if j == p {
            p - 1
        } else if j == p - 1 {
            p
        } else {
            j
        };
        assert(moved[i] == from[a] && moved[j] == from[b]);
        if a < b {
            assert(from[a] != from[b]);
        } else {
            assert(from[b] != from[a]);
        }
    }
    assert forall|i: int, j: int|
        1 <= i < j <= count && j < index && t[i].Yx == t[j].Yx implies #[trigger] moved[i]
        < #[trigger] moved[j] by {
        let a = if i == p {
            p - 1
        } else if i == p - 1 {
            p
        } else {
            i
        };
        let b = if j == p {
            p - 1
        } else if j == p - 1 {
            p
        } else {
            j
        };
        assert(moved[i] == from[a] && moved[j] == from[b]);
        assert(t[i] == filled[a] && t[j] == filled[b]);
        assert(a < b) by {
            if a >= b {
                assert(i == p - 1 && j == p);
            }
        }
        assert(from[a] < from[b]);
    }
}

/// The head sentinel of the active list: the smallest x there is.
pub open spec fn head_sentinel() -> CEdge {
    CEdge {
        Next: TAIL_EDGE,
        X: INT::MIN,
        Dx: 0,
        Error: 0,
        ErrorUp: 0,
        ErrorDown: 0,
        StartY: 0,
        EndY: 0,
        WindingDirection: 0,
    }
}

/// The tail sentinel of the active list and of the inactive array: the
/// largest x and the largest first scanline there are.
pub open spec fn tail_sentinel() -> CEdge {
    CEdge {
        Next: TAIL_EDGE,
        X: INT::MAX,
        Dx: 0,
        Error: 0,
        ErrorUp: 0,
        ErrorDown: 0,
        StartY: INT::MAX,
        EndY: INT::MIN,
        WindingDirection: 0,
    }
}

/// The sorting key of an edge.
pub open spec fn edge_key(e: CEdge) -> int {
    yx_key(e.X as int, e.StartY as int)
}

/// The state of a sorted inactive array of `count` entries over an edge
/// table: the head sentinel with the smallest key, then the entries in
/// ascending order, each with the key of its edge, then the tail sentinel.
pub open spec fn inactive_array_ok(inactive: Seq<CInactiveEdge>, edges: Seq<CEdge>, count: int) -> bool {
    &&& count >= 1
    &&& inactive.len() >= count + 2
    &&& inactive[0].Yx == LONGLONG::MIN
    &&& inactive[1].Yx != LONGLONG::MIN
    &&& forall|k: int|
        1 <= k <= count ==> {
            &&& (#[trigger] inactive[k]).Edge < edges.len()
            &&& inactive[k].Yx == edge_key(edges[inactive[k].Edge as int])
            &&& inactive[k].Yx >= inactive[k - 1].Yx
        }
    &&& inactive[count + 1].Edge < edges.len()
    &&& edges[inactive[count + 1].Edge as int].StartY == INT::MAX
}

/// Assert the state of the inactive array: says whether
/// [`inactive_array_ok`] holds of it.
pub fn AssertInactiveArray(inactive: &Vec<CInactiveEdge>, edges: &Vec<CEdge>, count: INT) -> (ok:
    bool)
    ensures
        ok == inactive_array_ok(inactive@, edges@, count as int),
{
    if count < 1 {
        return false;
    }
    let n: usize = count as usize;
    if inactive.len() < 2 || inactive.len() - 2 < n {
        return false;
    }
    // Verify the head:
    if inactive[0].Yx != LONGLONG::MIN {
        return false;
    }
    if inactive[1].Yx == LONGLONG::MIN {
        return false;
    }
    let mut k: usize = 1;
    while k <= n
        invariant
            1 <= k <= n + 1,
            n == count,
            n + 2 <= inactive@.len(),
            forall|m: int|
                1 <= m < k ==> {
                    &&& (#[trigger] inactive@[m]).Edge < edges@.len()
                    &&& inactive@[m].Yx == edge_key(edges@[inactive@[m].Edge as int])
                    &&& inactive@[m].Yx >= inactive@[m - 1].Yx
                },
        decreases n + 1 - k,
    {
        let entry = inactive[k];
        if entry.Edge >= edges.len() {
            return false;
        }
        let edge = edges[entry.Edge];
        if edge.X == INT::MIN {
            // Only a sentinel has this x.
            if edge.StartY == INT::MIN {
                return false;
            }
            let yx: LONGLONG = (edge.StartY as LONGLONG) * 0x1_0000_0000 - 1;
            if entry.Yx != yx {
                return false;
            }
        } else {
            let mut yx: LONGLONG = 0;
            YX(edge.X, edge.StartY, &mut yx);
            if entry.Yx != yx {
                return false;
            }
        }
        if entry.Yx < inactive[k - 1].Yx {
            return false;
        }
        k += 1;
    }
    // Verify that the tail is setup appropriately:
    let tail = inactive[n + 1];
    if tail.Edge >= edges.len() {
        return false;
    }
    edges[tail.Edge].StartY == INT::MAX
}

/// The entries of the inactive array before it is sorted: entry `k` is for
/// the `k`-th edge of the store, which stands at index `k + 2` of the edge
/// table, behind the two sentinels.
pub open spec fn initial_entries(edges: Seq<CEdge>) -> Seq<CInactiveEdge> {
    Seq::new(
        edges.len(),
        |k: int| CInactiveEdge { Edge: (k + 2) as usize, Yx: edge_key(edges[k]) as LONGLONG },
    )
}

/// The edge with its link cleared: it is in no list.
pub open spec fn unlinked(e: CEdge) -> CEdge {
    CEdge { Next: UNLINKED, ..e }
}

/// The edge table of a store: the two sentinels, then the edges of the
/// store in their order, each in no list yet.
pub open spec fn edge_table(edges: Seq<CEdge>) -> Seq<CEdge> {
    seq![head_sentinel(), tail_sentinel()] + edges.map_values(|e: CEdge| unlinked(e))
}

/// Every edge is a well-formed edge on its first scanline.
pub open spec fn edges_wf(edges: Seq<CEdge>) -> bool {
    forall|k: int| 0 <= k < edges.len() ==> edge_wf((#[trigger] edges[k]).model())
}

/// Initialize and sort the inactive array, and lay out the edge table with
/// an empty active list.
///
/// The array then holds the head sentinel, one entry for each edge of the
/// store, in ascending order of their keys, and the tail sentinel: edge `k`
/// of the table has an entry for every `k` from 2 on.
/// Returns the 'y' value of the topmost edge.
pub fn InitializeInactiveArray(
    pEdgeStore: &CEdgeStore,
    rgInactiveArray: &mut Vec<CInactiveEdge>,
    count: UINT,
    table: &mut CEdgeTable,
) -> (yTop: INT)
    requires
        pEdgeStore.wf(),
        count == pEdgeStore.edges().len(),
        count >= 1,
        edges_wf(pEdgeStore.edges()),
    ensures
        final(table).edges@ == edge_table(pEdgeStore.edges()),
        final(table).order@ == seq![HEAD_EDGE as int, TAIL_EDGE as int],
        final(table).wf(),
        final(table).sentinels_ok(),
        final(rgInactiveArray)@.len() == count + 2,
        final(rgInactiveArray)@[0].Yx == LONGLONG::MIN,
        final(rgInactiveArray)@[count + 1].Edge == TAIL_EDGE,
        sorted_range(final(rgInactiveArray)@, 1, count as int),
        final(rgInactiveArray)@.subrange(1, count + 1).to_multiset() == initial_entries(
            pEdgeStore.edges(),
        ).to_multiset(),
        inactive_ready(final(rgInactiveArray)@, final(table).edges@, 1),
        forall|k: int|
            2 <= k < count + 2 ==> #[trigger] crate::scanline::has_entry(final(rgInactiveArray)@, k),
        yTop == final(table).edges@[final(rgInactiveArray)@[1].Edge as int].StartY,
{
    let ghost all = pEdgeStore.edges();
    proof {
        pEdgeStore.lemma_wf();
    }
    table.edges.clear();
    table.edges.push(
        CEdge {
            Next: TAIL_EDGE,
            X: INT::MIN,
            Dx: 0,
            Error: 0,
            ErrorUp: 0,
            ErrorDown: 0,
            StartY: 0,
            EndY: 0,
            WindingDirection: 0,
        },
    );
    table.edges.push(
        CEdge {
            Next: TAIL_EDGE,
            X: INT::MAX,
            Dx: 0,
            Error: 0,
            ErrorUp: 0,
            ErrorDown: 0,
            StartY: INT::MAX,
            EndY: INT::MIN,
            WindingDirection: 0,
        },
    );
    proof {
        table.order@ = seq![HEAD_EDGE as int, TAIL_EDGE as int];
    }

    // First initialize the inactive array.  Skip the first entry,
    // which we reserve as a head sentinel for the insertion sort:
    rgInactiveArray.clear();
    rgInactiveArray.push(CInactiveEdge { Edge: HEAD_EDGE, Yx: LONGLONG::MIN });
    let buffers: usize = pEdgeStore.BufferCount();
    let mut b: usize = 0;
    let ghost mut seen: Seq<CEdge> = Seq::empty();
    proof {
        assert(pEdgeStore.buffer_seq().subrange(0, 0) =~= Seq::<Vec<CEdge>>::empty());
        assert(table.edges@ =~= edge_table(seen));
        assert(rgInactiveArray@.subrange(1, 1) =~= initial_entries(seen));
    }
    while b < buffers
        invariant
            0 <= b <= buffers,
            buffers == pEdgeStore.buffer_seq().len(),
            all == pEdgeStore.edges(),
            all == flat_edges(pEdgeStore.buffer_seq()),
            all.len() <= EDGE_STORE_LIMIT,
            edges_wf(all),
            seen == flat_edges(pEdgeStore.buffer_seq().subrange(0, b as int)),
            seen.len() <= all.len(),
            seen == all.subrange(0, seen.len() as int),
            table.edges@ == edge_table(seen),
            table.order@ == seq![HEAD_EDGE as int, TAIL_EDGE as int],
            rgInactiveArray@.len() == seen.len() + 1,
            rgInactiveArray@[0].Yx == LONGLONG::MIN,
            rgInactiveArray@.subrange(1, seen.len() as int + 1) == initial_entries(seen),
        decreases buffers - b,
    {
        let buffer = pEdgeStore.Enumerate(b);
        let ghost chunk = buffer@;
        let ghost base = seen;
        proof {
            let upto = pEdgeStore.buffer_seq().subrange(0, b + 1);
            assert(upto.drop_last() =~= pEdgeStore.buffer_seq().subrange(0, b as int));
            assert(upto.last() == pEdgeStore.buffer_seq()[b as int]);
            assert(flat_edges(upto) == base + chunk);
            lemma_flat_prefix(pEdgeStore.buffer_seq(), b + 1);
        }
        let mut k: usize = 0;
        while k < buffer.len()
            invariant
                0 <= k <= buffer@.len(),
                chunk == buffer@,
                all.len() <= EDGE_STORE_LIMIT,
                edges_wf(all),
                base + chunk == all.subrange(0, (base.len() + chunk.len()) as int),
                base.len() + chunk.len() <= all.len(),
                seen == base + chunk.subrange(0, k as int),
                table.edges@ == edge_table(seen),
                table.order@ == seq![HEAD_EDGE as int, TAIL_EDGE as int],
                rgInactiveArray@.len() == seen.len() + 1,
                rgInactiveArray@[0].Yx == LONGLONG::MIN,
                rgInactiveArray@.subrange(1, seen.len() as int + 1) == initial_entries(seen),
            decreases buffer@.len() - k,
        {
            let edge = buffer[k];
            let ghost before = seen;
            let ghost entries = rgInactiveArray@;
            proof {
                assert(edge == (base + chunk)[base.len() + k]);
                assert(edge == all[base.len() + k]);
                lemma_edge_x_bounded(edge.model(), edge.StartY as int);
            }
            let mut yx: LONGLONG = 0;
            YX(edge.X, edge.StartY, &mut yx);
            let index: usize = table.edges.len();
            rgInactiveArray.push(CInactiveEdge { Edge: index, Yx: yx });
            let mut fresh = edge;
            fresh.Next = UNLINKED;
            table.edges.push(fresh);
            proof {
                seen = seen.push(edge);
                assert(seen =~= base + chunk.subrange(0, k + 1));
                assert(table.edges@ =~= edge_table(seen));
                let now = rgInactiveArray@.subrange(1, seen.len() as int + 1);
                let want = initial_entries(seen);
                assert(now.len() == want.len());
                assert forall|m: int| 0 <= m < now.len() implies now[m] == want[m] by {
                    if m < before.len() {
                        assert(now[m] == entries.subrange(1, before.len() as int + 1)[m]);
                        assert(initial_entries(before)[m] == want[m]);
                    } else {
                        assert(now[m] == rgInactiveArray@[m + 1]);
                        assert(seen[m] == edge);
                    }
                }
                assert(now =~= want);
            }
            k += 1;
        }
        proof {
            assert(chunk.subrange(0, k as int) =~= chunk);
        }
        b += 1;
    }
    proof {
        assert(pEdgeStore.buffer_seq().subrange(0, b as int) =~= pEdgeStore.buffer_seq());
        assert(seen =~= all);
    }
    let n: usize = count as usize;

    // Add the tail, which is used when reading back the array.  This
    // is why we had to allocate the array as 'count + 1':
    rgInactiveArray.push(CInactiveEdge { Edge: TAIL_EDGE, Yx: LONGLONG::MAX });
    let ghost unsorted = rgInactiveArray@;
    assert(unsorted.subrange(1, n + 1) =~= initial_entries(all));

    // Only invoke the quicksort routine if it's worth the overhead:
    if n > QUICKSORT_THRESHOLD {
        // Quick-sort this, skipping the first and last elements,
        // which are sentinels.
        QuickSortEdges(rgInactiveArray, 1, n);
    }
    let ghost partly = rgInactiveArray@;
    assert(partly[0] == unsorted[0]);

    // Do a quick sort to handle the mostly sorted result:
    InsertionSortEdges(rgInactiveArray, n);
    proof {
        let sorted = rgInactiveArray@;
        assert(sorted[0] == partly[0]);
        assert(sorted[n + 1] == partly[n + 1]);
        assert(partly[n + 1] == unsorted[n + 1]);
        lemma_sorted_entries_ready(all, sorted);
    }
    // Return the 'y' value of the topmost edge:
    table.edges[rgInactiveArray[1].Edge].StartY
}

/// The sorted entries of the inactive array are ready to be inserted into
/// the active list.
pub proof fn lemma_sorted_entries_ready(all: Seq<CEdge>, sorted: Seq<CInactiveEdge>)
    requires
        1 <= all.len(),
        all.len() + 2 <= usize::MAX,
        edges_wf(all),
        sorted.len() == all.len() + 2,
        sorted[all.len() as int + 1].Edge == TAIL_EDGE,
        sorted_range(sorted, 1, all.len() as int),
        sorted.subrange(1, all.len() as int + 1).to_multiset() == initial_entries(all).to_multiset(),
    ensures
        inactive_ready(sorted, edge_table(all), 1),
        forall|k: int| 2 <= k < all.len() + 2 ==> #[trigger] crate::scanline::has_entry(sorted, k),
{
    broadcast use vstd::seq_lib::group_to_multiset_ensures;

    let n = all.len() as int;
    let initial = initial_entries(all);
    let part = sorted.subrange(1, n + 1);
    let table = edge_table(all);
    assert(initial.to_multiset().len() == initial.len());
    assert(part.to_multiset().len() == part.len());
    assert forall|k: int| 0 <= k < n implies {
        &&& (#[trigger] initial[k]).Edge == k + 2
        &&& initial[k].Yx == edge_key(all[k])
        &&& table[k + 2] == unlinked(all[k])
    } by {
        lemma_edge_x_bounded(all[k].model(), all[k].StartY as int);
    }
    assert(initial.no_duplicates()) by {
        assert forall|i: int, j: int| 0 <= i < initial.len() && 0 <= j < initial.len() && i
            != j implies initial[i] != initial[j] by {
            assert(initial[i].Edge == i + 2);
            assert(initial[j].Edge == j + 2);
        }
    }
    initial.lemma_multiset_has_no_duplicates();
    part.lemma_multiset_has_no_duplicates_conv();
    assert forall|k: int| 2 <= k < n + 2 implies #[trigger] crate::scanline::has_entry(
        sorted,
        k,
    ) by {
        assert(initial[k - 2].Edge == k);
        assert(initial.contains(initial[k - 2]));
        assert(initial.to_multiset().count(initial[k - 2]) > 0);
        assert(part.contains(initial[k - 2]));
        let w = choose|w: int| 0 <= w < part.len() && part[w] == initial[k - 2];
        assert(sorted[w + 1] == part[w]);
    }
    assert forall|q: int| 1 <= q <= n implies {
        &&& 2 <= (#[trigger] sorted[q]).Edge < table.len()
        &&& table[sorted[q].Edge as int].Next == UNLINKED
        &&& edge_wf(table[sorted[q].Edge as int].model())
        &&& sorted[q].Yx == edge_key(table[sorted[q].Edge as int])
    } by {
        assert(part[q - 1] == sorted[q]);
        assert(part.contains(part[q - 1]));
        assert(part.to_multiset().count(sorted[q]) > 0);
        assert(initial.contains(sorted[q]));
        let w = choose|w: int| 0 <= w < initial.len() && initial[w] == sorted[q];
        assert(initial[w].Edge == w + 2);
        assert(table[w + 2] == unlinked(all[w]));
        assert(unlinked(all[w]).model() == all[w].model());
    }
    assert forall|q1: int, q2: int| 1 <= q1 < q2 <= n implies (#[trigger] sorted[q1]).Edge != (
    #[trigger] sorted[q2]).Edge by {
        assert(part[q1 - 1] == sorted[q1]);
        assert(part[q2 - 1] == sorted[q2]);
        assert(part[q1 - 1] != part[q2 - 1]);
        assert(part.contains(part[q1 - 1]));
        assert(part.contains(part[q2 - 1]));
        assert(part.to_multiset().count(sorted[q1]) > 0);
        assert(part.to_multiset().count(sorted[q2]) > 0);
        assert(initial.contains(sorted[q1]));
        assert(initial.contains(sorted[q2]));
        let w1 = choose|w: int| 0 <= w < initial.len() && initial[w] == sorted[q1];
        let w2 = choose|w: int| 0 <= w < initial.len() && initial[w] == sorted[q2];
        assert(initial[w1].Edge == w1 + 2);
        assert(initial[w2].Edge == w2 + 2);
    }
}

/// The edges of the first `b` buffers are the first edges of all buffers.
pub proof fn lemma_flat_prefix(buffers: Seq<Vec<CEdge>>, b: int)
    requires
        0 <= b <= buffers.len(),
    ensures
        flat_edges(buffers.subrange(0, b)).len() <= flat_edges(buffers).len(),
        flat_edges(buffers.subrange(0, b)) == flat_edges(buffers).subrange(
            0,
            flat_edges(buffers.subrange(0, b)).len() as int,
        ),
    decreases buffers.len() - b,
{
    if b == buffers.len() {
        assert(buffers.subrange(0, b) =~= buffers);
        assert(flat_edges(buffers).subrange(0, flat_edges(buffers).len() as int) =~= flat_edges(
            buffers,
        ));
    } else {
        lemma_flat_prefix(buffers, b + 1);
        let longer = buffers.subrange(0, b + 1);
        assert(longer.drop_last() =~= buffers.subrange(0, b));
        let short = flat_edges(buffers.subrange(0, b));
        assert(flat_edges(longer) == short + longer.last()@);
        assert(short =~= flat_edges(buffers).subrange(0, short.len() as int));
    }
}

} // verus!
