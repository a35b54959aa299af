use bimap::bimap::BiMap;
use bimap::btree::InnerBTreeMap;
use std::ops::Bound;

type Pairs = BiMap<InnerBTreeMap<i32, &'static str>, InnerBTreeMap<&'static str, i32>>;

fn sample() -> Pairs {
    let mut map = Pairs::new();
    map.insert(3, "x");
    map.insert(1, "z");
    map.insert(2, "y");
    map.insert(4, "w");
    map.insert(1, "v");
    map.remove_left(&4);
    map
}

#[test]
fn both_views_hand_out_the_same_pairs() {
    let map = sample();
    let mut left = Vec::new();
    let mut cursor = map.iter_left();
    while let Some((l, r)) = cursor.next() {
        left.push((*l, *r));
    }
    let mut right = Vec::new();
    let mut cursor = map.iter_right();
    while let Some((l, r)) = cursor.next() {
        right.push((*l, *r));
    }
    assert_eq!(left, vec![(1, "v"), (2, "y"), (3, "x")]);
    assert_eq!(right, vec![(1, "v"), (3, "x"), (2, "y")]);
    left.sort();
    right.sort();
    assert_eq!(left, right);
    assert_eq!(left.len(), map.len());
}

#[test]
fn a_cursor_runs_from_both_ends() {
    let map = sample();
    let mut cursor = map.iter_left();
    assert_eq!(cursor.len(), 3);
    assert_eq!(cursor.size_hint(), (3, Some(3)));
    assert_eq!(cursor.next_back(), Some((&3, &"x")));
    assert_eq!(cursor.next(), Some((&1, &"v")));
    assert_eq!(cursor.len(), 1);
    assert_eq!(cursor.next_back(), Some((&2, &"y")));
    assert_eq!(cursor.next(), None);
    assert_eq!(cursor.next_back(), None);
    assert_eq!(cursor.len(), 0);
}

#[test]
fn the_right_view_runs_from_both_ends() {
    let map = sample();
    let mut cursor = map.iter_right();
    assert_eq!(cursor.len(), 3);
    assert_eq!(cursor.next_back(), Some((&2, &"y")));
    assert_eq!(cursor.next(), Some((&1, &"v")));
    assert_eq!(cursor.next(), Some((&3, &"x")));
    assert_eq!(cursor.next(), None);
    assert_eq!(cursor.next_back(), None);
}

#[test]
fn the_views_of_an_empty_map_are_empty() {
    let map = Pairs::new();
    assert_eq!(map.iter_left().next(), None);
    assert_eq!(map.iter_right().next(), None);
    assert_eq!(map.iter_left().len(), 0);
}

#[test]
fn a_range_of_left_values_comes_in_ascending_order() {
    let mut map = Pairs::new();
    map.insert(7, "g");
    map.insert(1, "a");
    map.insert(5, "e");
    map.insert(3, "c");
    let mut range = map.range_left(Bound::Included(&2), Bound::Excluded(&6));
    assert_eq!(range.next(), Some((&3, &"c")));
    assert_eq!(range.next(), Some((&5, &"e")));
    assert_eq!(range.next(), None);
}

#[test]
fn a_map_gives_its_pairs_up_whole() {
    let map = sample();
    assert_eq!(map.into_pairs(), vec![(1, "v"), (2, "y"), (3, "x")]);
    assert_eq!(Pairs::new().into_pairs(), vec![]);
}

#[test]
fn pairs_without_clone_leave_the_map_whole() {
    let mut map: BiMap<InnerBTreeMap<String, Vec<u8>>, InnerBTreeMap<Vec<u8>, String>> =
        BiMap::new();
    map.insert(String::from("b"), vec![2]);
    map.insert(String::from("a"), vec![1, 1]);
    assert_eq!(
        map.into_pairs(),
        vec![(String::from("a"), vec![1, 1]), (String::from("b"), vec![2])]
    );
}
