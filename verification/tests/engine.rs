use bimap::bimap::BiMap;
use bimap::bimap::Overwritten;
use bimap::btree::InnerBTreeMap;

type Pairs = BiMap<InnerBTreeMap<i32, &'static str>, InnerBTreeMap<&'static str, i32>>;

/// Orders and compares, and cannot be cloned or copied.
#[derive(Debug, PartialEq, Eq, PartialOrd, Ord)]
struct Token(u32);

fn linked_both_ways(map: &Pairs, lefts: &[i32]) -> bool {
    for l in lefts {
        if let Some(r) = map.get_left(l) {
            if map.get_right(r) != Some(l) {
                return false;
            }
        }
    }
    true
}

#[test]
fn a_new_map_is_empty() {
    let map = Pairs::new();
    assert_eq!(map.len(), 0);
    assert!(map.is_empty());
    assert!(!map.contains_left(&1));
    assert!(!map.contains_right(&"a"));
    assert_eq!(map.get_left(&1), None);
    assert_eq!(map.get_right(&"a"), None);
    assert_eq!(map.get_entry_left(&1), None);
    assert_eq!(map.get_entry_right(&"a"), None);
}

#[test]
fn insert_over_two_pairs_reports_both() {
    let mut map = Pairs::new();
    assert_eq!(map.insert(1, "a"), Overwritten::Zero);
    assert_eq!(map.insert(2, "b"), Overwritten::Zero);
    assert_eq!(map.insert(1, "b"), Overwritten::Two((1, "a"), (2, "b")));
    assert_eq!(map.len(), 1);
    assert_eq!(map.get_left(&1), Some(&"b"));
    assert_eq!(map.get_right(&"b"), Some(&1));
    assert_eq!(map.get_left(&2), None);
    assert_eq!(map.get_right(&"a"), None);
}

#[test]
fn insert_of_a_present_pair_reports_it_once() {
    let mut map = Pairs::new();
    assert_eq!(map.insert(1, "a"), Overwritten::Zero);
    assert_eq!(map.insert(1, "a"), Overwritten::One((1, "a")));
    assert_eq!(map.len(), 1);
    assert_eq!(map.get_left(&1), Some(&"a"));
    assert_eq!(map.get_right(&"a"), Some(&1));
}

#[test]
fn insert_over_a_left_value_reports_its_pair() {
    let mut map = Pairs::new();
    map.insert(1, "a");
    map.insert(2, "b");
    assert_eq!(map.insert(1, "c"), Overwritten::One((1, "a")));
    assert_eq!(map.len(), 2);
    assert_eq!(map.get_left(&1), Some(&"c"));
    assert_eq!(map.get_left(&2), Some(&"b"));
    assert!(!map.contains_right(&"a"));
}

#[test]
fn insert_over_a_right_value_reports_its_pair() {
    let mut map = Pairs::new();
    map.insert(1, "a");
    map.insert(2, "b");
    assert_eq!(map.insert(3, "b"), Overwritten::One((2, "b")));
    assert_eq!(map.len(), 2);
    assert_eq!(map.get_right(&"b"), Some(&3));
    assert_eq!(map.get_left(&1), Some(&"a"));
    assert!(!map.contains_left(&2));
}

#[test]
fn lookups_find_a_pair_from_either_side() {
    let mut map = Pairs::new();
    map.insert(4, "four");
    map.insert(9, "nine");
    assert!(map.contains_left(&4));
    assert!(map.contains_right(&"nine"));
    assert!(!map.contains_left(&5));
    assert!(!map.contains_right(&"five"));
    assert_eq!(map.get_entry_left(&9), Some((&9, &"nine")));
    assert_eq!(map.get_entry_right(&"four"), Some((&4, &"four")));
    assert_eq!(map.get_right(&"nine"), Some(&9));
    assert!(!map.is_empty());
}

#[test]
fn the_two_sides_stay_linked_through_changes() {
    let mut map = Pairs::new();
    let lefts = [1, 2, 3, 4, 5];
    map.insert(1, "a");
    assert!(linked_both_ways(&map, &lefts));
    assert_eq!(map.len(), 1);
    assert_eq!(map.try_insert(2, "b"), Ok(()));
    assert!(linked_both_ways(&map, &lefts));
    assert_eq!(map.len(), 2);
    map.insert(3, "a");
    assert!(linked_both_ways(&map, &lefts));
    assert_eq!(map.len(), 2);
    assert_eq!(map.remove_left(&2), Some((2, "b")));
    assert!(linked_both_ways(&map, &lefts));
    assert_eq!(map.len(), 1);
    assert_eq!(map.try_insert(3, "z"), Err((3, "z")));
    assert!(linked_both_ways(&map, &lefts));
    assert_eq!(map.len(), 1);
    assert_eq!(map.remove_right(&"a"), Some((3, "a")));
    assert!(linked_both_ways(&map, &lefts));
    assert_eq!(map.len(), 0);
}

#[test]
fn values_without_clone_come_back_as_they_went_in() {
    let mut map: BiMap<InnerBTreeMap<Token, String>, InnerBTreeMap<String, Token>> = BiMap::new();
    assert_eq!(map.insert(Token(7), String::from("seven")), Overwritten::Zero);
    assert_eq!(map.insert(Token(8), String::from("eight")), Overwritten::Zero);
    assert_eq!(map.remove_left(&Token(7)), Some((Token(7), String::from("seven"))));
    assert_eq!(
        map.remove_right(&String::from("eight")),
        Some((Token(8), String::from("eight")))
    );
    assert!(map.is_empty());
}

#[test]
fn try_insert_refuses_a_present_value_and_changes_nothing() {
    let mut map = Pairs::new();
    assert_eq!(map.try_insert(1, "a"), Ok(()));
    assert_eq!(map.try_insert(1, "b"), Err((1, "b")));
    assert_eq!(map.try_insert(2, "a"), Err((2, "a")));
    assert_eq!(map.try_insert(1, "a"), Err((1, "a")));
    assert_eq!(map.len(), 1);
    assert_eq!(map.get_left(&1), Some(&"a"));
    assert!(!map.contains_left(&2));
    assert!(!map.contains_right(&"b"));
}

#[test]
fn try_insert_of_new_values_adds_the_pair_alone() {
    let mut map = Pairs::new();
    map.insert(1, "a");
    assert_eq!(map.try_insert(2, "b"), Ok(()));
    assert!(map.contains_left(&2));
    assert!(map.contains_right(&"b"));
    assert_eq!(map.get_left(&1), Some(&"a"));
    assert_eq!(map.get_right(&"a"), Some(&1));
    assert_eq!(map.len(), 2);
}

#[test]
fn removing_an_absent_value_changes_nothing() {
    let mut map = Pairs::new();
    map.insert(1, "a");
    map.insert(2, "b");
    assert_eq!(map.remove_left(&3), None);
    assert_eq!(map.remove_right(&"c"), None);
    assert_eq!(map.len(), 2);
    assert_eq!(map.get_left(&1), Some(&"a"));
    assert_eq!(map.get_left(&2), Some(&"b"));
    assert_eq!(map.remove_left(&1), Some((1, "a")));
    assert_eq!(map.remove_left(&1), None);
    assert_eq!(map.len(), 1);
}

#[test]
fn removing_by_either_side_empties_both() {
    let mut map = Pairs::new();
    map.insert(1, "a");
    map.insert(2, "b");
    assert_eq!(map.remove_right(&"a"), Some((1, "a")));
    assert!(!map.contains_left(&1));
    assert!(!map.contains_right(&"a"));
    assert_eq!(map.remove_left(&2), Some((2, "b")));
    assert!(!map.contains_left(&2));
    assert!(!map.contains_right(&"b"));
    assert!(map.is_empty());
}

#[test]
fn later_pairs_win_when_a_map_is_built_from_pairs() {
    let map = Pairs::from_pairs(vec![(1, "a"), (2, "b"), (1, "b"), (3, "c")]);
    assert_eq!(map.len(), 2);
    assert_eq!(map.get_left(&1), Some(&"b"));
    assert_eq!(map.get_left(&3), Some(&"c"));
    assert_eq!(map.get_left(&2), None);
    assert_eq!(map.get_right(&"a"), None);
}

#[test]
fn extend_inserts_each_pair_in_turn() {
    let mut map = Pairs::new();
    map.insert(5, "e");
    map.extend(vec![(6, "f"), (5, "g")]);
    assert_eq!(map.len(), 2);
    assert_eq!(map.get_left(&5), Some(&"g"));
    assert_eq!(map.get_left(&6), Some(&"f"));
    assert!(!map.contains_right(&"e"));
    map.extend(vec![]);
    assert_eq!(map.len(), 2);
}
