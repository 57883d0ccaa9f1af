use wpf_gpu_raster::aarasterizer::{CEdge, CEdgeStore, InitializeEdge};
use wpf_gpu_raster::activelist::{
    AdvanceDDA, AdvanceDDAAndUpdateActiveEdgeList, AssertActiveList, AssertActiveListOrder,
    CEdgeTable, InsertNewEdges, RemoveStaleEdges, SortActiveEdges, UNLINKED,
};
use wpf_gpu_raster::inactive::{
    AssertInactiveArray, CInactiveEdge, InitializeInactiveArray, InsertionSortEdges,
    PartitionEdges, QuickSortEdges, SwapEntries, HEAD_EDGE, QUICKSORT_THRESHOLD, TAIL_EDGE, YX,
};
use wpf_gpu_raster::types::{POINT, S_OK};

fn key(x: i32, y: i32) -> i64 {
    let mut k = 0;
    YX(x, y, &mut k);
    k
}

#[test]
fn key_packs_scanline_and_x() {
    assert_eq!(key(5, 3), 15032385540);
    assert_eq!(key(-i32::MAX, 0), 0);
    assert_eq!(key(0, -1), -2147483649);
    // The order of the keys is the order by scanline first and x second.
    assert!(key(100, 1) < key(-100, 2));
    assert!(key(-100, 2) < key(100, 2));
    assert!(key(i32::MAX, -5) < key(-i32::MAX, -4));
}

fn entries(keys: &[i64]) -> Vec<CInactiveEdge> {
    let mut v = vec![CInactiveEdge { Edge: HEAD_EDGE, Yx: i64::MIN }];
    for (i, k) in keys.iter().enumerate() {
        v.push(CInactiveEdge { Edge: i + 2, Yx: *k });
    }
    v.push(CInactiveEdge { Edge: TAIL_EDGE, Yx: i64::MAX });
    v
}

fn keys_of(v: &[CInactiveEdge]) -> Vec<i64> {
    v[1..v.len() - 1].iter().map(|e| e.Yx).collect()
}

fn scrambled(n: usize) -> Vec<i64> {
    // A fixed permutation of 0..n, with every third key doubled.
    (0..n).map(|i| ((i * 37 + 11) % n) as i64 / if i % 3 == 0 { 2 } else { 1 }).collect()
}

#[test]
fn entries_are_swapped() {
    let mut v = entries(&[7, 8, 9]);
    SwapEntries(&mut v, 1, 3);
    assert_eq!(keys_of(&v), vec![9, 8, 7]);
    assert_eq!(v[1].Edge, 4);
    assert_eq!(v[3].Edge, 2);
}

#[test]
fn partition_separates_around_the_median() {
    let keys = scrambled(40);
    let mut v = entries(&keys);
    let j = PartitionEdges(&mut v, 1, 40);
    assert!(1 <= j && j <= 40);
    for i in 1..j {
        assert!(v[i].Yx <= v[j].Yx);
    }
    for i in j + 1..=40 {
        assert!(v[i].Yx >= v[j].Yx);
    }
    let mut a = keys_of(&v);
    let mut b = keys.clone();
    a.sort();
    b.sort();
    assert_eq!(a, b);
}

#[test]
fn quicksort_leaves_short_runs_to_the_insertion_sort() {
    let keys = scrambled(200);
    let mut v = entries(&keys);
    QuickSortEdges(&mut v, 1, 200);
    // Entries that are the threshold or more apart are in order.
    for i in 1..=200 {
        for j in i + QUICKSORT_THRESHOLD..=200 {
            assert!(v[i].Yx <= v[j].Yx);
        }
    }
    assert_eq!(v[0].Yx, i64::MIN);
    assert_eq!(v[201].Edge, TAIL_EDGE);
    InsertionSortEdges(&mut v, 200);
    let mut expected = keys.clone();
    expected.sort();
    assert_eq!(keys_of(&v), expected);
    // Every entry still has the key that it came with.
    for e in &v[1..201] {
        assert_eq!(e.Yx, keys[e.Edge - 2]);
    }
}

#[test]
fn insertion_sort_sorts_alone() {
    let keys = vec![5, -3, 9, 9, 0, i64::MAX, -7, 2];
    let mut v = entries(&keys);
    InsertionSortEdges(&mut v, 8);
    assert_eq!(keys_of(&v), vec![-7, -3, 0, 2, 5, 9, 9, i64::MAX]);
    let mut one = entries(&[4]);
    InsertionSortEdges(&mut one, 1);
    assert_eq!(keys_of(&one), vec![4]);
}

fn vertical(x: i32, top: i32, bottom: i32) -> CEdge {
    InitializeEdge(POINT { x: x * 16, y: top * 16 }, POINT { x: x * 16, y: bottom * 16 }, -100000)
        .unwrap()
}

fn slanted(x0: i32, y0: i32, x1: i32, y1: i32) -> CEdge {
    InitializeEdge(POINT { x: x0 * 16, y: y0 * 16 }, POINT { x: x1 * 16, y: y1 * 16 }, -100000)
        .unwrap()
}

fn table_of(edges: &[CEdge]) -> (CEdgeTable, Vec<CInactiveEdge>, i32) {
    let mut store = CEdgeStore::new();
    for e in edges {
        assert_eq!(store.AddEdge(*e), S_OK);
    }
    let mut table = CEdgeTable::new();
    let mut inactive = Vec::new();
    let top = InitializeInactiveArray(&store, &mut inactive, edges.len() as u32, &mut table);
    (table, inactive, top)
}

fn active_xs(table: &CEdgeTable) -> Vec<i32> {
    let mut xs = Vec::new();
    let mut at = table.First();
    while at != TAIL_EDGE {
        xs.push(table.Edge(at).X);
        at = table.Edge(at).Next;
    }
    xs
}

#[test]
fn inactive_array_is_sorted_by_scanline_and_x() {
    let edges = [
        vertical(30, 5, 9),
        vertical(10, 5, 9),
        vertical(20, 2, 9),
        vertical(-4, 7, 9),
        vertical(20, 5, 6),
    ];
    let (table, inactive, top) = table_of(&edges);
    assert_eq!(top, 2);
    assert_eq!(inactive.len(), 7);
    assert_eq!(inactive[0].Yx, i64::MIN);
    assert_eq!(inactive[6].Edge, TAIL_EDGE);
    let order: Vec<(i32, i32)> =
        inactive[1..6].iter().map(|e| (table.Edge(e.Edge).StartY, table.Edge(e.Edge).X)).collect();
    assert_eq!(order, vec![(2, 20), (5, 10), (5, 20), (5, 30), (7, -4)]);
    for e in &inactive[1..6] {
        assert_eq!(e.Yx, key(table.Edge(e.Edge).X, table.Edge(e.Edge).StartY));
        assert_eq!(table.Edge(e.Edge).Next, UNLINKED);
    }
    assert!(AssertInactiveArray(&inactive, &table.edges, 5));
    assert!(!AssertInactiveArray(&inactive, &table.edges, 4));
    // The sentinels of the active list stand in front of the edges.
    assert_eq!(table.Edge(HEAD_EDGE).X, i32::MIN);
    assert_eq!(table.Edge(TAIL_EDGE).X, i32::MAX);
    assert_eq!(table.Edge(TAIL_EDGE).StartY, i32::MAX);
    assert_eq!(table.First(), TAIL_EDGE);
    assert!(AssertActiveList(&table, 0));
}

#[test]
fn many_edges_are_sorted_through_the_quicksort() {
    let edges: Vec<CEdge> =
        (0..100).map(|i| vertical((i * 37 + 11) % 100, (i * 7) % 10, 20)).collect();
    let (table, inactive, top) = table_of(&edges);
    assert_eq!(top, 0);
    assert!(AssertInactiveArray(&inactive, &table.edges, 100));
    let mut seen = vec![false; 102];
    for e in &inactive[1..101] {
        assert!(!seen[e.Edge]);
        seen[e.Edge] = true;
    }
}

#[test]
fn new_edges_are_inserted_in_order_of_x() {
    let edges = [vertical(30, 5, 9), vertical(10, 5, 9), vertical(20, 2, 9), vertical(25, 2, 4)];
    let (mut table, inactive, top) = table_of(&edges);
    let mut pos = 1;
    let mut next = 0;
    InsertNewEdges(&mut table, top, &inactive, &mut pos, &mut next);
    assert_eq!(active_xs(&table), vec![20, 25]);
    assert_eq!(pos, 3);
    assert_eq!(next, 5);
    assert!(AssertActiveList(&table, 2));
    assert!(AssertActiveListOrder(&table));
    InsertNewEdges(&mut table, 5, &inactive, &mut pos, &mut next);
    assert_eq!(active_xs(&table), vec![10, 20, 25, 30]);
    assert_eq!(pos, 5);
    assert_eq!(next, i32::MAX);
    // On scanline 5 the edge at 25 has ended.
    assert!(!AssertActiveList(&table, 5));
    RemoveStaleEdges(&mut table, 5);
    assert_eq!(active_xs(&table), vec![10, 20, 30]);
    // Three edges are no pairs.
    assert!(!AssertActiveList(&table, 5));
    assert!(AssertActiveListOrder(&table));
}

#[test]
fn dda_steps_along_the_line() {
    // From (1, 1.5) to (3, 5.5): on the scanlines 2 to 5 the line is at
    // x = 20/16, 28/16, 36/16 and 44/16.
    let mut e =
        InitializeEdge(POINT { x: 16, y: 24 }, POINT { x: 48, y: 88 }, -100000).unwrap();
    let mut xs = vec![e.X];
    for y in 3..6 {
        AdvanceDDA(&mut e, y);
        xs.push(e.X);
        assert!(-e.ErrorDown <= e.Error && e.Error < 0);
    }
    assert_eq!(xs, vec![2, 2, 3, 3]);
}

#[test]
fn edges_that_cross_are_sorted_again() {
    // One edge from x = 0 to x = 10, the other from x = 10 to x = 0, over
    // ten scanlines.
    let edges = [slanted(0, 0, 10, 10), slanted(10, 0, 0, 10)];
    let (mut table, inactive, top) = table_of(&edges);
    let mut pos = 1;
    let mut next = 0;
    InsertNewEdges(&mut table, top, &inactive, &mut pos, &mut next);
    assert_eq!(active_xs(&table), vec![0, 10]);
    for y in 1..10 {
        AdvanceDDAAndUpdateActiveEdgeList(y, &mut table);
        let lo = if y < 10 - y { y } else { 10 - y };
        assert_eq!(active_xs(&table), vec![lo, 10 - lo]);
        assert!(AssertActiveList(&table, y));
    }
    // On scanline 10 both edges have ended.
    AdvanceDDAAndUpdateActiveEdgeList(10, &mut table);
    assert_eq!(active_xs(&table), vec![]);
    assert!(AssertActiveList(&table, 10));
}

#[test]
fn bubble_sort_orders_the_active_list() {
    let edges: Vec<CEdge> = (0..9).map(|i| vertical(i, 0, 5)).collect();
    let (mut table, inactive, top) = table_of(&edges);
    let mut pos = 1;
    let mut next = 0;
    InsertNewEdges(&mut table, top, &inactive, &mut pos, &mut next);
    assert_eq!(active_xs(&table), (0..9).collect::<Vec<i32>>());
    // Put the edges out of order by hand.
    let order = [40, 7, 7, -3, 12, 0, 99, 5, 6];
    let mut at = table.First();
    for x in order {
        table.edges[at].X = x;
        at = table.edges[at].Next;
    }
    assert!(!AssertActiveListOrder(&table));
    SortActiveEdges(&mut table);
    assert_eq!(active_xs(&table), vec![-3, 0, 5, 6, 7, 7, 12, 40, 99]);
    assert!(AssertActiveListOrder(&table));
}

#[test]
fn insertion_sort_keeps_the_order_of_equal_keys() {
    let keys = vec![5, 2, 5, 2, 5, 1];
    let mut v = entries(&keys);
    // Tell the entries apart by their edge: the place they came from.
    for (k, e) in v.iter_mut().enumerate() {
        e.Edge = k;
    }
    let before = v.clone();
    InsertionSortEdges(&mut v, 6);
    let order: Vec<(i64, usize)> = v[1..7].iter().map(|e| (e.Yx, e.Edge)).collect();
    assert_eq!(order, vec![(1, 6), (2, 2), (2, 4), (5, 1), (5, 3), (5, 5)]);
    assert_eq!(v[0].Yx, before[0].Yx);
    assert_eq!(v[7].Yx, before[7].Yx);
}
