use ecs_core::resources::Resources;
use ecs_core::tag_map::TagMap;
use ecs_core::tag_set::{position, TagSet};

#[test]
fn insert_overwrites_and_hands_back_the_earlier_value() {
    let mut table: Resources<i64> = Resources::new();
    assert!(!table.contains(1));
    assert_eq!(table.insert(1, 10), None);
    assert_eq!(table.insert(1, 11), Some(10));
    assert_eq!(table.get(1), Some(&11));
    assert!(table.contains(1));
    assert_eq!(table.get(2), None);
}

#[test]
fn get_mut_changes_the_resource_in_place() {
    let mut table: Resources<i64> = Resources::new();
    table.insert(1, 10);
    table.insert(2, 20);
    *table.get_mut(1).unwrap() += 5;
    assert_eq!(table.get(1), Some(&15));
    assert_eq!(table.get(2), Some(&20));
    assert!(table.get_mut(3).is_none());
}

#[test]
fn remove_takes_the_resource_out() {
    let mut table: Resources<i64> = Resources::new();
    table.insert(1, 10);
    table.insert(2, 20);
    table.insert(3, 30);
    assert_eq!(table.remove(1), Some(10));
    assert_eq!(table.remove(1), None);
    assert_eq!(table.get(1), None);
    assert_eq!(table.get(2), Some(&20));
    assert_eq!(table.get(3), Some(&30));
    assert_eq!(table.remove(3), Some(30));
    assert_eq!(table.get(2), Some(&20));
    assert_eq!(table.insert(1, 12), None);
    assert_eq!(table.get(1), Some(&12));
}

#[test]
fn tag_map_walks_its_slots() {
    let mut map: TagMap<i64> = TagMap::new();
    assert_eq!(map.len(), 0);
    map.insert(7, 70);
    map.insert(8, 80);
    map.insert(7, 71);
    assert_eq!(map.len(), 2);
    assert_eq!(map.slot_of(7), Some(0));
    assert_eq!(map.slot_of(8), Some(1));
    assert_eq!(map.slot_of(9), None);
    assert_eq!(map.key_at(1), 8);
    assert_eq!(map.value_at(0), &71);
    *map.value_at_mut(1) = 81;
    assert_eq!(map.get(8), Some(&81));
    assert_eq!(map.remove(7), Some(71));
    assert_eq!(map.len(), 1);
    assert_eq!(map.slot_of(8), Some(0));
    assert!(!map.contains(7));
}

#[test]
fn tag_set_is_a_set() {
    let mut set = TagSet::new();
    assert!(set.insert(3));
    assert!(set.insert(5));
    assert!(!set.insert(3));
    assert_eq!(set.len(), 2);
    assert_eq!(set.at(0), 3);
    assert_eq!(set.at(1), 5);
    assert!(set.contains(5));
    assert!(!set.contains(4));
    let mut other = TagSet::new();
    other.insert(4);
    assert!(!set.intersects(&other));
    assert!(!other.is_subset_of(&set));
    other.insert(5);
    assert!(set.intersects(&other));
    assert!(other.intersects(&set));
    let mut small = TagSet::new();
    assert!(small.is_subset_of(&set));
    assert!(!small.intersects(&set));
    small.insert(5);
    assert!(small.is_subset_of(&set));
    assert!(small.is_subset_of(&other));
    assert!(!set.is_subset_of(&small));
}

#[test]
fn position_finds_the_first_occurrence() {
    assert_eq!(position(&vec![4, 5, 4], 4), Some(0));
    assert_eq!(position(&vec![4, 5, 4], 5), Some(1));
    assert_eq!(position(&vec![4, 5, 4], 6), None);
    assert_eq!(position(&vec![], 6), None);
}
