// Tests of iter(), modify_all(), regions(), values(), into_iter() and delete().

use quadtree_impl::entry::{Entry, EntryRef};
use quadtree_impl::Quadtree;

type Region = ((i64, i64), (u64, u64));

/// Whether `items` holds the elements of `expected`, in any order.
fn unordered_elements_are<T: PartialEq>(items: Vec<T>, expected: Vec<T>) -> bool {
    if items.len() != expected.len() {
        return false;
    }
    let mut used = vec![false; expected.len()];
    for item in items.iter() {
        let mut found = false;
        for (i, e) in expected.iter().enumerate() {
            if !used[i] && e == item {
                used[i] = true;
                found = true;
                break;
            }
        }
        if !found {
            return false;
        }
    }
    true
}

fn mk_quadtree_for_iter_tests() -> Quadtree<i8> {
    let mut q = Quadtree::<i8>::new_with_anchor((-35, -35), 8);
    q.extend(vec![((0, -5), 10), ((-15, 20), -25), ((30, -35), 40)]);
    q
}

fn all_entries(q: &Quadtree<i8>) -> Vec<(Region, i8)> {
    let mut it = q.iter();
    let mut got = vec![];
    while let Some(e) = it.next() {
        let (region, value) = e.inner();
        got.push((region, *value));
    }
    got
}

#[test]
fn iter_all() {
    let q = mk_quadtree_for_iter_tests();

    let mut it = q.iter();
    let mut got: Vec<(Region, &i8)> = vec![];
    while let Some(e) = it.next() {
        got.push(e.inner());
    }
    assert!(unordered_elements_are(
        got,
        vec![
            (((-15, 20), (1, 1)), &-25),
            (((0, -5), (1, 1)), &10),
            (((30, -35), (1, 1)), &40)
        ]
    ));
}

// The same as iter_all(), except we mutate each value by +1.
#[test]
fn iter_mut_all() {
    let mut q = mk_quadtree_for_iter_tests();

    q.modify_all(|v| v + 1);

    let mut it = q.iter();
    let mut got: Vec<(Region, &i8)> = vec![];
    while let Some(e) = it.next() {
        got.push(e.inner());
    }
    assert!(unordered_elements_are(
        got,
        vec![
            (((-15, 20), (1, 1)), &-24),
            (((0, -5), (1, 1)), &11),
            (((30, -35), (1, 1)), &41)
        ]
    ));
}

#[test]
fn regions() {
    let q = mk_quadtree_for_iter_tests();
    let mut it = q.regions();
    let mut got: Vec<Region> = vec![];
    while let Some(region) = it.next() {
        got.push(region.inner());
    }
    assert!(unordered_elements_are(
        got,
        vec![((0, -5), (1, 1)), ((-15, 20), (1, 1)), ((30, -35), (1, 1))],
    ));
}

#[test]
fn values() {
    let q = mk_quadtree_for_iter_tests();

    let mut it = q.values();
    let mut got: Vec<&i8> = vec![];
    while let Some(value) = it.next() {
        got.push(value);
    }
    assert!(unordered_elements_are(got, vec![&10, &-25, &40]));
}

#[test]
fn into_iterator_consuming() {
    let q = mk_quadtree_for_iter_tests();
    // Entry holds by-value.
    let mut it = q.into_iter();
    let mut entries: Vec<Entry<i8>> = vec![];
    while let Some(e) = it.next() {
        entries.push(e);
    }
    let mut values: Vec<i8> = vec![];
    for e in entries {
        values.push(e.value());
    }

    assert!(unordered_elements_are(values, vec![10, -25, 40],));
}

#[test]
fn into_iterator_reference() {
    let mut q = mk_quadtree_for_iter_tests();
    let mut it = q.iter();
    let mut entries: Vec<EntryRef<i8>> = vec![];
    while let Some(e) = it.next() {
        entries.push(e);
    }
    let mut values: Vec<&i8> = vec![];
    for e in entries {
        values.push(e.value());
    }
    assert!(unordered_elements_are(values, vec![&10, &-25, &40],));

    q.reset();
    assert!(q.is_empty());
}

#[test]
fn delete_everything() {
    let mut q = mk_quadtree_for_iter_tests();
    assert_eq!(q.len(), 3);
    q.delete((-35, -35), (80, 80));
    assert_eq!(q.len(), 0);
}

#[test]
fn delete_region() {
    let mut q = mk_quadtree_for_iter_tests();
    assert_eq!(q.len(), 3);
    // Near miss.
    q.delete((29, -36), (1, 1));
    assert_eq!(q.len(), 3);

    // Direct hit!
    let mut returned_entries = q.delete((30, -35), (1, 1)).into_iter();
    assert_eq!(q.len(), 2);
    let hit = returned_entries.next().unwrap();
    assert_eq!(hit.value_ref(), &40);
    assert_eq!(hit.region(), ((30, -35), (1, 1)));
}

#[test]
fn delete_region_two() {
    let mut q = mk_quadtree_for_iter_tests();
    assert_eq!(q.len(), 3);

    // Just large enough to encompass the two points.
    let returned_entries = q.delete((-15, -5), (16, 26)).into_iter();
    assert_eq!(q.len(), 1);
    assert_eq!(returned_entries.len(), 2);

    assert!(unordered_elements_are(
        returned_entries.map(|e| e.value()).collect(),
        vec![-25, 10,]
    ));
}

#[test]
fn delete_leaves_the_rest() {
    let mut q = mk_quadtree_for_iter_tests();
    q.delete((-15, -5), (16, 26));
    assert!(unordered_elements_are(all_entries(&q), vec![(((30, -35), (1, 1)), 40)]));
    // Nothing that is left intersects the deleted region.
    let mut again = q.query((-15, -5), (16, 26));
    assert!(again.next().is_none());
}

#[test]
fn extend_gives_one_identifier_each() {
    let mut q = Quadtree::<i8>::new_with_anchor((-35, -35), 8);
    let ids = q.extend(vec![((0, -5), 10), ((1000, 0), 11), ((-15, 20), -25)]);
    assert_eq!(ids.len(), 3);
    assert!(ids[0].is_some());
    // (1000, 0) lies outside the square from -35 to 221.
    assert!(ids[1].is_none());
    assert!(ids[2].is_some());
    assert_ne!(ids[0], ids[2]);
    assert_eq!(q.len(), 2);
}
