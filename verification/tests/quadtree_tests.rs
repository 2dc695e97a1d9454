// Tests of construction, insertion, queries and reset.

use quadtree_impl::area::Area;
use quadtree_impl::qtinner::{QTInner, Subquadrants};
use quadtree_impl::traversal::Traversal;
use quadtree_impl::uuid_iter::UuidIter;
use quadtree_impl::Quadtree;

fn sorted_values(mut values: Vec<i32>) -> Vec<i32> {
    values.sort();
    values
}

fn query_values(q: &Quadtree<i32>, anchor: (i64, i64), size: (u64, u64)) -> Vec<i32> {
    let mut it = q.query(anchor, size);
    let mut got = vec![];
    while let Some(e) = it.next() {
        got.push(*e.value());
    }
    sorted_values(got)
}

fn query_strict_values(q: &Quadtree<i32>, anchor: (i64, i64), size: (u64, u64)) -> Vec<i32> {
    let mut it = q.query_strict(anchor, size);
    let mut got = vec![];
    while let Some(e) = it.next() {
        got.push(*e.value());
    }
    sorted_values(got)
}

#[test]
fn side_is_two_to_the_depth() {
    let q = Quadtree::<i32>::new_with_anchor((-35, -35), 8);
    assert_eq!(q.anchor(), (-35, -35));
    assert_eq!(q.width(), 256);
    assert_eq!(q.height(), 256);
    assert_eq!(q.depth(), 8);
    let unit = Quadtree::<i32>::new(0);
    assert_eq!(unit.anchor(), (0, 0));
    assert_eq!(unit.width(), 1);
    let large = Quadtree::<i32>::new(62);
    assert_eq!(large.width(), 4611686018427387904);
}

#[test]
fn new_is_empty() {
    let q = Quadtree::<i32>::new(4);
    assert_eq!(q.len(), 0);
    assert!(q.is_empty());
    let mut it = q.iter();
    assert!(it.next().is_none());
}

#[test]
fn contains_is_about_the_covered_square() {
    let q = Quadtree::<i32>::new(4);
    assert!(q.contains((0, 0), (16, 16)));
    assert!(q.contains((15, 15), (1, 1)));
    assert!(!q.contains((15, 15), (2, 1)));
    assert!(!q.contains((-1, 0), (1, 1)));
    assert!(q.contains((16, 16), (0, 0)));
}

#[test]
fn insert_then_query_finds_the_entry() {
    let mut q = Quadtree::<i32>::new(4);
    let id = q.insert((2, 3), (4, 5), 7).unwrap();
    assert_eq!(q.len(), 1);
    let mut it = q.query((2, 3), (4, 5));
    let e = it.next().unwrap();
    assert_eq!(e.id(), id);
    assert_eq!(e.region(), ((2, 3), (4, 5)));
    assert_eq!(*e.value(), 7);
    assert!(it.next().is_none());
}

#[test]
fn insert_outside_is_refused() {
    let mut q = Quadtree::<i32>::new(4);
    assert!(q.insert((10, 10), (7, 1), 1).is_none());
    assert!(q.insert((-1, 0), (1, 1), 1).is_none());
    assert!(q.insert_pt((16, 0), 1).is_none());
    assert_eq!(q.len(), 0);
    assert!(q.insert((10, 10), (6, 6), 1).is_some());
    assert_eq!(q.len(), 1);
}

#[test]
fn identifiers_differ() {
    let mut q = Quadtree::<i32>::new(4);
    let a = q.insert_pt((1, 1), 1).unwrap();
    let b = q.insert_pt((1, 1), 2).unwrap();
    let c = q.insert_pt((9, 9), 3).unwrap();
    assert_ne!(a, b);
    assert_ne!(a, c);
    assert_ne!(b, c);
    assert_eq!(q.len(), 3);
}

#[test]
fn insert_with_id_refuses_an_identifier_in_use() {
    let mut q = Quadtree::<i32>::new(4);
    assert_eq!(q.insert_with_id(5, (1, 1), (2, 2), 10), Some(5));
    assert_eq!(q.insert_with_id(5, (3, 3), (1, 1), 11), None);
    assert_eq!(q.insert_with_id(6, (3, 3), (20, 1), 11), None);
    assert_eq!(q.insert_with_id(6, (3, 3), (1, 1), 12), Some(6));
    assert_eq!(q.len(), 2);
    assert_eq!(query_values(&q, (0, 0), (16, 16)), vec![10, 12]);
}

#[test]
fn unused_id_passes_over_identifiers_in_use() {
    let mut q = Quadtree::<i32>::new(4);
    assert_eq!(q.unused_id(5), 5);
    q.insert_with_id(5, (1, 1), (1, 1), 1);
    q.insert_with_id(6, (1, 1), (1, 1), 2);
    q.insert_with_id(8, (1, 1), (1, 1), 3);
    assert_eq!(q.unused_id(4), 4);
    assert_eq!(q.unused_id(5), 7);
    assert_eq!(q.unused_id(6), 7);
    assert_eq!(q.unused_id(8), 9);
    q.insert_with_id(u128::MAX, (1, 1), (1, 1), 4);
    q.insert_with_id(0, (1, 1), (1, 1), 5);
    assert_eq!(q.unused_id(u128::MAX), 1);
}

#[test]
fn insert_stores_whatever_the_square_contains() {
    let mut q = Quadtree::<i32>::new(2);
    let mut ids = vec![];
    for x in 0..4 {
        for y in 0..4 {
            ids.push(q.insert_pt((x, y), 1).unwrap());
            ids.push(q.insert((x, y), (0, 0), 2).unwrap());
        }
    }
    ids.push(q.insert((0, 0), (4, 4), 3).unwrap());
    assert_eq!(q.len(), 33);
    ids.sort();
    ids.dedup();
    assert_eq!(ids.len(), 33);
    assert_eq!(query_values(&q, (3, 3), (1, 1)), vec![1, 3]);
}

#[test]
fn overlapping_and_strict_queries() {
    let mut q = Quadtree::<i32>::new(4);
    q.insert((0, 0), (2, 2), 1);
    q.insert((1, 1), (4, 4), 2);
    q.insert((8, 8), (8, 8), 3);
    q.insert((7, 7), (2, 2), 4);
    q.insert((0, 0), (16, 16), 5);
    assert_eq!(q.len(), 5);

    assert_eq!(query_values(&q, (0, 0), (1, 1)), vec![1, 5]);
    assert_eq!(query_values(&q, (1, 1), (1, 1)), vec![1, 2, 5]);
    assert_eq!(query_values(&q, (8, 8), (1, 1)), vec![3, 4, 5]);
    assert_eq!(query_values(&q, (5, 0), (2, 5)), vec![5]);
    assert_eq!(query_values(&q, (0, 0), (16, 16)), vec![1, 2, 3, 4, 5]);

    assert_eq!(query_strict_values(&q, (0, 0), (1, 1)), Vec::<i32>::new());
    assert_eq!(query_strict_values(&q, (0, 0), (2, 2)), vec![1]);
    assert_eq!(query_strict_values(&q, (0, 0), (5, 5)), vec![1, 2]);
    assert_eq!(query_strict_values(&q, (7, 7), (9, 9)), vec![3, 4]);
    assert_eq!(query_strict_values(&q, (0, 0), (16, 16)), vec![1, 2, 3, 4, 5]);
}

#[test]
fn query_larger_than_the_square() {
    let mut q = Quadtree::<i32>::new(3);
    q.insert_pt((0, 0), 1);
    q.insert_pt((7, 7), 2);
    assert_eq!(query_values(&q, (-100, -100), (1000, 1000)), vec![1, 2]);
    assert_eq!(query_strict_values(&q, (-100, -100), (1000, 1000)), vec![1, 2]);
    assert_eq!(query_values(&q, (-100, -100), (101, 101)), vec![1]);
}

#[test]
fn query_apart_finds_nothing() {
    let mut q = Quadtree::<i32>::new(4);
    q.insert((0, 0), (2, 2), 1);
    q.insert((8, 8), (8, 8), 3);
    assert_eq!(query_values(&q, (2, 2), (6, 6)), Vec::<i32>::new());
    assert_eq!(query_values(&q, (4, 4), (0, 0)), Vec::<i32>::new());
    assert_eq!(q.len(), 2);
}

#[test]
fn region_without_extent_intersects_nothing() {
    let mut q = Quadtree::<i32>::new(4);
    assert!(q.insert((3, 3), (0, 5), 1).is_some());
    assert_eq!(q.len(), 1);
    assert_eq!(query_values(&q, (0, 0), (16, 16)), Vec::<i32>::new());
    assert_eq!(query_values(&q, (3, 3), (0, 5)), Vec::<i32>::new());
    assert_eq!(query_strict_values(&q, (0, 0), (16, 16)), vec![1]);
    assert_eq!(q.delete((0, 0), (16, 16)).len(), 0);
    assert_eq!(q.len(), 1);
}

#[test]
fn strict_query_follows_the_first_quadrant() {
    let mut q = Quadtree::<i32>::new(1);
    // Covers a cell: under the only quadrant that contains it, wherever the query goes.
    q.insert((1, 0), (1, 1), 1);
    // Covers no cell and lies on the line between two quadrants: under the first.
    q.insert((1, 0), (0, 1), 2);
    assert_eq!(query_strict_values(&q, (0, 0), (2, 2)), vec![1, 2]);
    assert_eq!(query_strict_values(&q, (0, 0), (1, 1)), vec![2]);
    assert_eq!(query_strict_values(&q, (1, 0), (1, 1)), vec![1]);
}

#[test]
fn reset_clears_and_starts_over() {
    let mut q = Quadtree::<i32>::new_with_anchor((-8, -8), 4);
    q.insert((0, 0), (2, 2), 1);
    q.insert((-8, -8), (16, 16), 2);
    q.reset();
    assert_eq!(q.len(), 0);
    assert!(q.is_empty());
    assert_eq!(q.anchor(), (-8, -8));
    assert_eq!(q.width(), 16);
    assert_eq!(q.depth(), 4);
    assert_eq!(query_values(&q, (-8, -8), (16, 16)), Vec::<i32>::new());

    let mut fresh = Quadtree::<i32>::new_with_anchor((-8, -8), 4);
    assert_eq!(q.insert_with_id(1, (0, 0), (2, 2), 5), fresh.insert_with_id(1, (0, 0), (2, 2), 5));
    assert_eq!(q.insert_with_id(2, (8, 0), (1, 1), 6), fresh.insert_with_id(2, (8, 0), (1, 1), 6));
    assert_eq!(q.len(), fresh.len());
    assert_eq!(query_values(&q, (0, 0), (1, 1)), query_values(&fresh, (0, 0), (1, 1)));
    assert_eq!(query_values(&q, (0, 0), (1, 1)), vec![5]);
}

#[test]
fn modify_all_changes_each_value_once() {
    let mut q = Quadtree::<i32>::new(4);
    q.insert((0, 0), (2, 2), 1);
    q.insert((1, 1), (4, 4), 2);
    q.insert((0, 0), (16, 16), 5);
    q.modify_all(|v| v * 10);
    assert_eq!(query_values(&q, (0, 0), (16, 16)), vec![10, 20, 50]);
    assert_eq!(query_strict_values(&q, (0, 0), (2, 2)), vec![10]);
    assert_eq!(q.len(), 3);
}

#[test]
fn delete_counts() {
    let mut q = Quadtree::<i32>::new(4);
    q.insert((0, 0), (2, 2), 1);
    q.insert((1, 1), (4, 4), 2);
    q.insert((8, 8), (8, 8), 3);
    let removed = q.delete((1, 1), (1, 1));
    assert_eq!(removed.len(), 2);
    assert_eq!(q.len(), 1);
    let mut values: Vec<i32> = removed.into_iter().map(|e| e.value()).collect();
    values.sort();
    assert_eq!(values, vec![1, 2]);
    assert_eq!(query_values(&q, (0, 0), (16, 16)), vec![3]);
}

#[test]
fn area_contains() {
    let a = Area::new((0, 0), (4, 4));
    assert!(a.contains(a));
    assert!(a.contains(Area::new((1, 1), (3, 3))));
    assert!(!a.contains(Area::new((1, 1), (4, 3))));
    assert!(!a.contains(Area::new((-1, 0), (2, 2))));
    assert!(a.contains(Area::new((4, 4), (0, 0))));
    assert!(Area::new((i64::MAX, i64::MIN), (u64::MAX, u64::MAX)).contains(Area::new(
        (i64::MAX, 0),
        (u64::MAX, 1)
    )));
    assert!(!Area::new((i64::MAX, 0), (1, 1)).contains(Area::new((i64::MAX, 0), (2, 1))));
}

#[test]
fn area_intersects() {
    let a = Area::new((0, 0), (4, 4));
    assert!(a.intersects(a));
    assert!(a.intersects(Area::new((3, 3), (5, 5))));
    assert!(!a.intersects(Area::new((4, 0), (4, 4))));
    assert!(!a.intersects(Area::new((0, 4), (4, 4))));
    assert!(!a.intersects(Area::new((-4, 0), (4, 4))));
    assert!(a.intersects(Area::new((-4, -4), (5, 5))));
    assert!(!a.intersects(Area::new((2, 2), (0, 1))));
    assert!(!Area::new((2, 2), (1, 0)).intersects(a));
    assert!(Area::new((i64::MAX, 0), (u64::MAX, 1)).intersects(Area::new((i64::MAX, 0), (1, 1))));
}

#[test]
fn area_accessors() {
    let a = Area::new((-3, 5), (4, 6));
    assert_eq!(a.anchor(), (-3, 5));
    assert_eq!(a.dimensions(), (4, 6));
    assert_eq!(a.width(), 4);
    assert_eq!(a.height(), 6);
    assert_eq!(a.left_edge(), -3);
    assert_eq!(a.top_edge(), 5);
    assert_eq!(a.right_edge(), 1);
    assert_eq!(a.bottom_edge(), 11);
    assert_eq!(a.inner(), ((-3, 5), (4, 6)));
    assert!(a.contains_pt((-3, 5)));
    assert!(a.contains_pt((0, 10)));
    assert!(!a.contains_pt((1, 5)));
    assert!(!a.contains_pt((0, 11)));
    assert_eq!(Area::new((i64::MAX, 0), (u64::MAX, 0)).right_edge(), 27670116110564327422);
}

#[test]
fn area_quadrants() {
    let a = Area::new((-4, 10), (8, 8));
    assert_eq!(a.quadrant(0), Area::new((-4, 10), (4, 4)));
    assert_eq!(a.quadrant(1), Area::new((0, 10), (4, 4)));
    assert_eq!(a.quadrant(2), Area::new((-4, 14), (4, 4)));
    assert_eq!(a.quadrant(3), Area::new((0, 14), (4, 4)));
}

#[test]
fn traversal_eval() {
    let bounds = Area::new((0, 0), (4, 4));
    let inside = Area::new((1, 1), (2, 2));
    let across = Area::new((3, 3), (2, 2));
    let apart = Area::new((4, 4), (2, 2));
    assert!(Traversal::Overlapping.eval(bounds, inside));
    assert!(Traversal::Overlapping.eval(bounds, across));
    assert!(!Traversal::Overlapping.eval(bounds, apart));
    assert!(Traversal::Strict.eval(bounds, inside));
    assert!(!Traversal::Strict.eval(bounds, across));
    assert!(!Traversal::Strict.eval(bounds, apart));
}

#[test]
fn node_keeps_at_the_deepest_containing_node() {
    let mut root = QTInner::new((0, 0), 2);
    assert_eq!(root.region, Area::new((0, 0), (4, 4)));
    // Straddles the middle: stays at the root.
    root.insert(Area::new((1, 1), (2, 2)), 1);
    assert_eq!(root.kept_ids, vec![1]);
    // A single cell goes two levels down.
    root.insert(Area::new((3, 0), (1, 1)), 2);
    assert_eq!(root.kept_ids, vec![1]);
    let children = root.subquadrants.as_ref().unwrap();
    assert_eq!(children.q1.region, Area::new((2, 0), (2, 2)));
    assert_eq!(children.q1.depth, 1);
    assert!(children.q1.kept_ids.is_empty());
    let below = children.q1.subquadrants.as_ref().unwrap();
    assert_eq!(below.q1.region, Area::new((3, 0), (1, 1)));
    assert_eq!(below.q1.kept_ids, vec![2]);
    assert!(below.q1.subquadrants.is_none());
    assert!(children.q0.subquadrants.is_none());

    root.remove(Area::new((3, 0), (1, 1)), 2);
    let children = root.subquadrants.as_ref().unwrap();
    let below = children.q1.subquadrants.as_ref().unwrap();
    assert!(below.q1.kept_ids.is_empty());
    assert_eq!(root.kept_ids, vec![1]);
    root.remove(Area::new((1, 1), (2, 2)), 1);
    assert!(root.kept_ids.is_empty());

    root.insert(Area::new((0, 0), (1, 1)), 3);
    root.reset();
    assert!(root.kept_ids.is_empty());
    assert!(root.subquadrants.is_none());
    assert_eq!(root.region, Area::new((0, 0), (4, 4)));
    assert_eq!(root.depth, 2);
}

#[test]
fn walk_hands_out_each_identifier_once() {
    let mut root = QTInner::new((0, 0), 3);
    root.insert(Area::new((0, 0), (8, 8)), 1);
    root.insert(Area::new((0, 0), (1, 1)), 2);
    root.insert(Area::new((7, 7), (1, 1)), 3);
    root.insert(Area::new((4, 4), (2, 2)), 4);
    let mut it = UuidIter::new(&root);
    assert_eq!(it.size_hint(), (0, None));
    let mut got = vec![];
    while let Some(id) = it.next() {
        got.push(id);
    }
    got.sort();
    assert_eq!(got, vec![1, 2, 3, 4]);
    assert!(it.next().is_none());
}

#[test]
fn pruned_walk_keeps_what_the_query_needs() {
    let mut root = QTInner::new((0, 0), 3);
    root.insert(Area::new((0, 0), (8, 8)), 1);
    root.insert(Area::new((0, 0), (1, 1)), 2);
    root.insert(Area::new((7, 7), (1, 1)), 3);
    root.insert(Area::new((4, 4), (2, 2)), 4);
    root.insert(Area::new((5, 5), (1, 1)), 5);

    let mut it = UuidIter::new(&root);
    it.query_optimization(Area::new((5, 5), (1, 1)), Traversal::Overlapping);
    let mut got = vec![];
    while let Some(id) = it.next() {
        got.push(id);
    }
    got.sort();
    assert_eq!(got, vec![1, 4, 5]);

    let mut it = UuidIter::new(&root);
    it.query_optimization(Area::new((5, 5), (1, 1)), Traversal::Strict);
    let mut got = vec![];
    while let Some(id) = it.next() {
        got.push(id);
    }
    assert_eq!(got, vec![5]);

    let mut it = UuidIter::new(&root);
    it.query_optimization(Area::new((3, 3), (2, 2)), Traversal::Strict);
    let mut got = vec![];
    while let Some(id) = it.next() {
        got.push(id);
    }
    got.sort();
    assert_eq!(got, vec![1, 2, 3, 4, 5]);
}

/// A square of four by four that was split once. The root keeps 10, the quadrant
/// at the anchor keeps 11, the quadrant opposite keeps 12.
fn root_split_once() -> QTInner {
    let leaf = |anchor: (i64, i64), kept_ids: Vec<u128>| QTInner {
        region: Area::new(anchor, (2, 2)),
        depth: 1,
        kept_ids,
        subquadrants: None,
    };
    QTInner {
        region: Area::new((0, 0), (4, 4)),
        depth: 2,
        kept_ids: vec![10],
        subquadrants: Some(Box::new(Subquadrants {
            q0: leaf((0, 0), vec![11]),
            q1: leaf((2, 0), vec![]),
            q2: leaf((0, 2), vec![]),
            q3: leaf((2, 2), vec![12]),
        })),
    }
}

fn rest_of(mut it: UuidIter) -> Vec<u128> {
    let mut got = vec![];
    while let Some(id) = it.next() {
        got.push(id);
    }
    assert!(it.next().is_none());
    got.sort();
    got
}

#[test]
fn descent_into_a_quadrant() {
    let root = root_split_once();
    let mut it = UuidIter::new(&root);
    it.query_optimization(Area::new((1, 1), (1, 1)), Traversal::Overlapping);
    assert_eq!(rest_of(it), vec![10, 11]);

    let mut it = UuidIter::new(&root);
    it.query_optimization(Area::new((1, 1), (1, 1)), Traversal::Strict);
    assert_eq!(rest_of(it), vec![11]);
}

#[test]
fn descent_stops_where_no_quadrant_contains_the_query() {
    let root = root_split_once();
    let mut it = UuidIter::new(&root);
    it.query_optimization(Area::new((1, 1), (2, 2)), Traversal::Overlapping);
    assert_eq!(rest_of(it), vec![10, 11, 12]);

    let mut it = UuidIter::new(&root);
    it.query_optimization(Area::new((1, 1), (2, 2)), Traversal::Strict);
    assert_eq!(rest_of(it), vec![10, 11, 12]);
}

#[test]
fn descent_stays_where_the_root_does_not_contain_the_query() {
    let root = root_split_once();
    let mut it = UuidIter::new(&root);
    it.query_optimization(Area::new((-1, 0), (2, 2)), Traversal::Overlapping);
    assert_eq!(rest_of(it), vec![10, 11, 12]);

    let mut it = UuidIter::new(&root);
    it.query_optimization(Area::new((0, 0), (5, 5)), Traversal::Strict);
    assert_eq!(rest_of(it), vec![10, 11, 12]);
}

#[test]
fn modify_all_needs_the_stored_values_only() {
    let mut q = Quadtree::<i8>::new(4);
    q.insert((0, 0), (2, 2), 126);
    q.insert((1, 1), (4, 4), -128);
    q.modify_all(|v| v + 1);
    let mut it = q.values();
    let mut got = vec![];
    while let Some(v) = it.next() {
        got.push(*v);
    }
    got.sort();
    assert_eq!(got, vec![-127, 127]);
}
