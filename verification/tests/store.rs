use bimap::btree::InnerBTreeMap;
use bimap::iter::IntoIter;
use bimap::mem::Half;
use bimap::order::rank;
use bimap::order::Rank;
use bimap::traits::Contains;
use bimap::traits::Get;
use bimap::traits::InnerMap;
use bimap::traits::Insert;
use bimap::traits::IntoIterate;
use bimap::traits::Iterate;
use bimap::traits::Length;
use bimap::traits::Remove;
use std::ops::Bound;

fn put(store: &mut InnerBTreeMap<u32, char>, k: u32, v: char) {
    let (key, _key) = Half::split(k);
    let (value, _value) = Half::split(v);
    store.insert(key, value);
}

fn odd() -> InnerBTreeMap<u32, char> {
    let mut store = InnerBTreeMap::new();
    put(&mut store, 5, 'e');
    put(&mut store, 1, 'a');
    put(&mut store, 7, 'g');
    put(&mut store, 3, 'c');
    store
}

fn keys_in(store: &InnerBTreeMap<u32, char>, start: Bound<&u32>, end: Bound<&u32>) -> Vec<u32> {
    let mut found = Vec::new();
    let mut range = store.range(start, end);
    while let Some((k, _)) = range.next() {
        found.push(*k);
    }
    found
}

#[test]
fn rank_orders_two_keys() {
    assert_eq!(rank(&1, &2), Rank::Before);
    assert_eq!(rank(&2, &2), Rank::Same);
    assert_eq!(rank(&3, &2), Rank::After);
    assert_eq!(rank(&"a", &"b"), Rank::Before);
}

#[test]
fn a_new_store_is_empty() {
    let store: InnerBTreeMap<u32, char> = InnerBTreeMap::new();
    assert_eq!(store.len(), 0);
    assert!(store.is_empty());
    assert!(!store.contains_key(&1));
    assert_eq!(store.get(&1), None);
    assert_eq!(store.nth(0), None);
}

#[test]
fn a_store_finds_what_was_put_in() {
    let store = odd();
    assert_eq!(store.len(), 4);
    assert!(!store.is_empty());
    assert!(store.contains_key(&1));
    assert!(store.contains_key(&7));
    assert!(!store.contains_key(&4));
    assert!(!store.contains_key(&0));
    assert!(!store.contains_key(&8));
    assert_eq!(store.get(&3), Some(&'c'));
    assert_eq!(store.get(&4), None);
    assert_eq!(store.get_entry(&5), Some((&5, &'e')));
    assert_eq!(store.get_entry(&6), None);
}

#[test]
fn a_store_keeps_its_keys_in_ascending_order() {
    let store = odd();
    assert_eq!(store.nth(0), Some((&1, &'a')));
    assert_eq!(store.nth(1), Some((&3, &'c')));
    assert_eq!(store.nth(2), Some((&5, &'e')));
    assert_eq!(store.nth(3), Some((&7, &'g')));
    assert_eq!(store.nth(4), None);
    let mut all = Vec::new();
    let mut cursor = store.iter();
    while let Some((k, v)) = cursor.next() {
        all.push((*k, *v));
    }
    assert_eq!(all, vec![(1, 'a'), (3, 'c'), (5, 'e'), (7, 'g')]);
}

#[test]
fn a_second_insert_of_a_key_replaces_its_pair() {
    let mut store = odd();
    put(&mut store, 3, 'z');
    assert_eq!(store.len(), 4);
    assert_eq!(store.get(&3), Some(&'z'));
    assert_eq!(store.nth(1), Some((&3, &'z')));
}

#[test]
fn remove_entry_hands_the_fragments_out() {
    let mut store = odd();
    let (key, value) = store.remove_entry(&5).unwrap();
    assert_eq!(*key, 5);
    assert_eq!(*value, 'e');
    assert_eq!(store.len(), 3);
    assert!(!store.contains_key(&5));
    assert!(store.remove_entry(&5).is_none());
    assert!(store.remove_entry(&4).is_none());
    assert_eq!(store.len(), 3);
    assert_eq!(store.nth(2), Some((&7, &'g')));
}

#[test]
fn a_half_open_range_yields_the_keys_inside() {
    let store = odd();
    assert_eq!(keys_in(&store, Bound::Included(&2), Bound::Excluded(&6)), vec![3, 5]);
}

#[test]
fn range_bounds_are_taken_as_given() {
    let store = odd();
    assert_eq!(keys_in(&store, Bound::Unbounded, Bound::Unbounded), vec![1, 3, 5, 7]);
    assert_eq!(keys_in(&store, Bound::Included(&3), Bound::Included(&5)), vec![3, 5]);
    assert_eq!(keys_in(&store, Bound::Excluded(&3), Bound::Included(&7)), vec![5, 7]);
    assert_eq!(keys_in(&store, Bound::Excluded(&3), Bound::Excluded(&5)), Vec::<u32>::new());
    assert_eq!(keys_in(&store, Bound::Included(&1), Bound::Excluded(&1)), Vec::<u32>::new());
    assert_eq!(keys_in(&store, Bound::Unbounded, Bound::Excluded(&5)), vec![1, 3]);
    assert_eq!(keys_in(&store, Bound::Included(&6), Bound::Unbounded), vec![7]);
    assert_eq!(keys_in(&store, Bound::Included(&8), Bound::Unbounded), Vec::<u32>::new());
    assert_eq!(keys_in(&store, Bound::Unbounded, Bound::Excluded(&1)), Vec::<u32>::new());
}

#[test]
fn a_range_whose_start_is_past_its_end_is_empty() {
    let store = odd();
    assert_eq!(keys_in(&store, Bound::Included(&6), Bound::Excluded(&2)), Vec::<u32>::new());
    assert_eq!(keys_in(&store, Bound::Excluded(&7), Bound::Included(&1)), Vec::<u32>::new());
}

#[test]
fn a_range_runs_from_both_ends() {
    let store = odd();
    let mut range = store.range(Bound::Included(&3), Bound::Unbounded);
    assert_eq!(range.len(), 3);
    assert_eq!(range.size_hint(), (3, Some(3)));
    assert_eq!(range.next_back(), Some((&7, &'g')));
    assert_eq!(range.next(), Some((&3, &'c')));
    assert_eq!(range.next_back(), Some((&5, &'e')));
    assert_eq!(range.next(), None);
    assert_eq!(range.next_back(), None);
}

#[test]
fn a_range_of_an_empty_store_is_empty() {
    let store: InnerBTreeMap<u32, char> = InnerBTreeMap::new();
    assert_eq!(keys_in(&store, Bound::Unbounded, Bound::Unbounded), Vec::<u32>::new());
}

#[test]
fn a_store_gives_its_fragments_up_in_order() {
    let mut iter = odd().into_iter();
    assert_eq!(iter.len(), 4);
    assert_eq!(iter.size_hint(), (4, Some(4)));
    let (key, value) = iter.next().unwrap();
    assert_eq!((*key, *value), (1, 'a'));
    let (key, value) = iter.next_back().unwrap();
    assert_eq!((*key, *value), (7, 'g'));
    let (key, value) = iter.next().unwrap();
    assert_eq!((*key, *value), (3, 'c'));
    assert_eq!(iter.len(), 1);
    let (key, value) = iter.next_back().unwrap();
    assert_eq!((*key, *value), (5, 'e'));
    assert!(iter.next().is_none());
    assert!(iter.next_back().is_none());
    assert_eq!(iter.len(), 0);
}

#[test]
fn an_owning_cursor_runs_over_a_vector_from_its_first_pair() {
    let (k1, _k1) = Half::split(1u8);
    let (v1, _v1) = Half::split('x');
    let (k2, _k2) = Half::split(2u8);
    let (v2, _v2) = Half::split('y');
    let mut iter = IntoIter::over(vec![(k1, v1), (k2, v2)]);
    let (key, value) = iter.next().unwrap();
    assert_eq!((*key, *value), (1, 'x'));
    let (key, value) = iter.next().unwrap();
    assert_eq!((*key, *value), (2, 'y'));
    assert!(iter.next().is_none());
}
