use bags_list::{notional_bag_for, AccountId, Bag, List, Node};

const THRESHOLDS: [u64; 9] = [10, 20, 30, 40, 50, 60, 1_000, 2_000, 10_000];

/// A list with four voters, one in the bag 10 and three in the bag 1_000.
fn four_voters() -> List<u32> {
    let mut list: List<u32> = List::new(THRESHOLDS.to_vec());
    for (id, weight) in [(1u32, 10u64), (2, 1_000), (3, 1_000), (4, 1_000)] {
        list.insert(id, weight);
    }
    list
}

fn line(list: &List<u32>, upper: u64) -> Vec<u32> {
    match Bag::get(list, upper) {
        Some(bag) => bag.iter(list).iter().map(|node| *node.id()).collect(),
        None => Vec::new(),
    }
}

fn lines(list: &List<u32>) -> Vec<(u64, Vec<u32>)> {
    list.voter_bags
        .keys()
        .map(|upper| (*upper, line(list, *upper)))
        .collect()
}

fn listed(list: &List<u32>) -> Vec<u32> {
    list.iter().iter().map(|node| *node.id()).collect()
}

#[test]
fn setup_works() {
    let list = four_voters();
    assert_eq!(list.counter_for_voters, 4);
    assert_eq!(list.voter_nodes.len(), 4);
    assert_eq!(lines(&list), vec![(10, vec![1]), (1_000, vec![2, 3, 4])]);
    assert_eq!(
        Bag::get(&list, 10),
        Some(Bag::new(Some(1u32), Some(1u32), 10))
    );
    assert_eq!(
        Bag::get(&list, 1_000),
        Some(Bag::new(Some(2u32), Some(4u32), 1_000))
    );
    assert_eq!(Bag::get(&list, 20), None);
    assert_eq!(
        Node::get(&list, &3),
        Some(Node { id: 3u32, prev: Some(2), next: Some(4), bag_upper: 1_000 })
    );
    assert_eq!(Node::get(&list, &5), None);
    assert_eq!(list.sanity_check(), Ok(()));
}

#[test]
fn weights_fall_into_the_least_bag_not_below_them() {
    assert_eq!(notional_bag_for(&THRESHOLDS, 0), 10);
    assert_eq!(notional_bag_for(&THRESHOLDS, 9), 10);
    assert_eq!(notional_bag_for(&THRESHOLDS, 10), 10);
    assert_eq!(notional_bag_for(&THRESHOLDS, 11), 20);
    assert_eq!(notional_bag_for(&THRESHOLDS, 1_000), 1_000);
    assert_eq!(notional_bag_for(&THRESHOLDS, 1_001), 2_000);
    assert_eq!(notional_bag_for(&THRESHOLDS, 10_000), 10_000);
    assert_eq!(notional_bag_for(&THRESHOLDS, 10_001), u64::MAX);
    assert_eq!(notional_bag_for(&THRESHOLDS, u64::MAX), u64::MAX);
    assert_eq!(notional_bag_for(&[], 7), u64::MAX);
    assert_eq!(notional_bag_for(&[5, 5, 5], 5), 5);
    assert_eq!(notional_bag_for(&[5, 5, 5], 6), u64::MAX);
}

#[test]
fn listing_the_greatest_weight_changes_no_bag() {
    for weight in [0u64, 3, 4, 5, 1_000, u64::MAX - 1, u64::MAX] {
        assert_eq!(
            notional_bag_for(&[3, 5], weight),
            notional_bag_for(&[3, 5, u64::MAX], weight)
        );
    }
}

#[test]
fn greater_bags_hold_greater_weights() {
    assert!(notional_bag_for(&THRESHOLDS, 35) < notional_bag_for(&THRESHOLDS, 41));
    assert_eq!(notional_bag_for(&THRESHOLDS, 35), 40);
}

#[test]
fn insert_joins_the_end_of_its_bag() {
    let mut list = four_voters();
    list.insert(5, 1_000);
    assert_eq!(lines(&list), vec![(10, vec![1]), (1_000, vec![2, 3, 4, 5])]);
    list.insert(6, 1_001);
    assert_eq!(
        lines(&list),
        vec![(10, vec![1]), (1_000, vec![2, 3, 4, 5]), (2_000, vec![6])]
    );
    list.insert(7, 20_000);
    assert_eq!(line(&list, u64::MAX), vec![7]);
    assert_eq!(list.counter_for_voters, 7);
    assert_eq!(
        Node::get(&list, &4),
        Some(Node { id: 4u32, prev: Some(3), next: Some(5), bag_upper: 1_000 })
    );
    assert_eq!(list.sanity_check(), Ok(()));
}

#[test]
fn the_counter_stops_at_its_limit() {
    let mut list = four_voters();
    list.counter_for_voters = u32::MAX;
    list.insert(5, 1);
    assert_eq!(list.counter_for_voters, u32::MAX);
    list.counter_for_voters = 1;
    list.remove_many(&[1, 2]);
    assert_eq!(list.counter_for_voters, 0);
}

#[test]
fn inserting_the_tail_again_links_nothing() {
    let mut list = four_voters();
    list.insert(4, 1_000);
    assert_eq!(line(&list, 1_000), vec![2, 3, 4]);
    assert_eq!(list.counter_for_voters, 5);
    assert_eq!(list.sanity_check(), Err("iter_count != stored_count"));
}

#[test]
fn insert_many_is_repeated_insert() {
    let weight_of = |id: &u32| (*id as u64) * 7;
    let mut at_once = four_voters();
    at_once.insert_many(vec![9, 5, 7], weight_of);
    let mut one_by_one = four_voters();
    for id in [9u32, 5, 7] {
        one_by_one.insert(id, weight_of(&id));
    }
    assert_eq!(at_once.voter_nodes, one_by_one.voter_nodes);
    assert_eq!(at_once.voter_bags, one_by_one.voter_bags);
    assert_eq!(at_once.counter_for_voters, one_by_one.counter_for_voters);
    assert_eq!(line(&at_once, 40), vec![5]);
    assert_eq!(line(&at_once, 50), vec![7]);
    assert_eq!(line(&at_once, 1_000), vec![2, 3, 4, 9]);
}

#[test]
fn remove_closes_the_gap() {
    let mut list = four_voters();
    // a voter in the middle
    list.remove(&3);
    assert_eq!(line(&list, 1_000), vec![2, 4]);
    assert_eq!(
        Node::get(&list, &4),
        Some(Node { id: 4u32, prev: Some(2), next: None, bag_upper: 1_000 })
    );
    // the head
    list.remove(&2);
    assert_eq!(Bag::get(&list, 1_000), Some(Bag::new(Some(4u32), Some(4u32), 1_000)));
    assert_eq!(Node::get(&list, &2), None);
    // the last one cleans the bag
    list.remove(&1);
    assert_eq!(Bag::get(&list, 10), None);
    assert_eq!(list.counter_for_voters, 1);
    // nobody
    list.remove(&42);
    assert_eq!(list.counter_for_voters, 1);
    assert_eq!(lines(&list), vec![(1_000, vec![4])]);
    assert_eq!(list.sanity_check(), Ok(()));
}

#[test]
fn remove_many_is_repeated_remove() {
    let mut at_once = four_voters();
    at_once.insert(5, 1_000);
    at_once.insert(6, 15);
    let mut one_by_one = four_voters();
    one_by_one.insert(5, 1_000);
    one_by_one.insert(6, 15);
    let voters = [2u32, 99, 3, 5, 2, 1];
    at_once.remove_many(&voters);
    for id in voters {
        one_by_one.remove(&id);
    }
    assert_eq!(lines(&at_once), vec![(20, vec![6]), (1_000, vec![4])]);
    assert_eq!(lines(&at_once), lines(&one_by_one));
    assert_eq!(at_once.voter_nodes, one_by_one.voter_nodes);
    assert_eq!(at_once.counter_for_voters, 2);
    assert_eq!(one_by_one.counter_for_voters, 2);
    assert_eq!(at_once.sanity_check(), Ok(()));
}

#[test]
fn remove_undoes_insert() {
    let mut list = four_voters();
    let before = lines(&list);
    let nodes = list.voter_nodes.clone();
    list.insert(8, 999);
    list.remove(&8);
    assert_eq!(lines(&list), before);
    assert_eq!(list.voter_nodes, nodes);
    assert_eq!(list.counter_for_voters, 4);
}

#[test]
fn clear_leaves_nothing() {
    let mut list = four_voters();
    list.clear();
    assert_eq!(list.counter_for_voters, 0);
    assert!(list.voter_nodes.is_empty());
    assert!(list.voter_bags.is_empty());
    assert_eq!(list.bag_thresholds, THRESHOLDS.to_vec());
    assert_eq!(list.sanity_check(), Ok(()));
}

#[test]
fn regenerate_starts_anew_and_counts() {
    let mut list = four_voters();
    let migrated = list.regenerate(vec![30, 20, 10], |id: &u32| *id as u64);
    assert_eq!(migrated, 3);
    assert_eq!(
        lines(&list),
        vec![(10, vec![10]), (20, vec![20]), (30, vec![30])]
    );
    assert_eq!(list.counter_for_voters, 3);
    assert_eq!(Node::get(&list, &1), None);
    assert_eq!(list.sanity_check(), Ok(()));
    assert_eq!(list.regenerate(Vec::new(), |_: &u32| 0), 0);
    assert!(list.voter_nodes.is_empty());
}

#[test]
fn listing_goes_from_the_greatest_bag_to_the_least() {
    let mut list = four_voters();
    assert_eq!(listed(&list), vec![2, 3, 4, 1]);
    list.insert(5, 2_000);
    assert_eq!(listed(&list), vec![5, 2, 3, 4, 1]);
    list.insert(6, 1_000);
    assert_eq!(listed(&list), vec![5, 2, 3, 4, 6, 1]);
    // the bag above all thresholds comes first, whether or not they list the greatest weight
    list.insert(7, 1_000_000);
    assert_eq!(listed(&list), vec![7, 5, 2, 3, 4, 6, 1]);
    list.bag_thresholds.push(u64::MAX);
    assert_eq!(listed(&list), vec![7, 5, 2, 3, 4, 6, 1]);
    let uppers: Vec<u64> = list.iter().iter().map(|node| node.bag_upper).collect();
    assert!(uppers.windows(2).all(|pair| pair[0] >= pair[1]));
}

#[test]
fn the_first_voters_can_be_taken() {
    let mut list = four_voters();
    list.insert(5, 20_000);
    let first = |n: usize| -> Vec<u32> {
        list.iter_take(n).iter().map(|node| node.id).collect()
    };
    assert_eq!(first(0), Vec::<u32>::new());
    assert_eq!(first(1), vec![5]);
    assert_eq!(first(3), vec![5, 2, 3]);
    assert_eq!(first(5), vec![5, 2, 3, 4, 1]);
    assert_eq!(first(6), listed(&list));
}

/// The list with only these of its nodes and bags.
fn part(list: &List<u32>, ids: &[u32], uppers: &[u64]) -> List<u32> {
    let mut part: List<u32> = List::new(list.bag_thresholds.clone());
    part.counter_for_voters = list.counter_for_voters;
    for id in ids {
        part.voter_nodes.insert(*id, list.voter_nodes[id].clone());
    }
    for upper in uppers {
        part.voter_bags.insert(*upper, list.voter_bags[upper].clone());
    }
    part
}

#[test]
fn a_few_entries_are_enough_to_change_a_list() {
    // the bag and its tail, to insert
    let mut list = four_voters();
    let mut some = part(&list, &[4], &[1_000]);
    list.insert(9, 900);
    some.insert(9, 900);
    for id in [4u32, 9] {
        assert_eq!(some.voter_nodes.get(&id), list.voter_nodes.get(&id));
    }
    assert_eq!(some.voter_bags.get(&1_000), list.voter_bags.get(&1_000));
    assert_eq!(some.counter_for_voters, list.counter_for_voters);

    // the node, its neighbours and its bag, to remove
    let mut list = four_voters();
    let mut some = part(&list, &[2, 3], &[1_000]);
    list.remove(&2);
    some.remove(&2);
    for id in [2u32, 3] {
        assert_eq!(some.voter_nodes.get(&id), list.voter_nodes.get(&id));
    }
    assert_eq!(some.voter_bags.get(&1_000), list.voter_bags.get(&1_000));
    assert_eq!(some.counter_for_voters, list.counter_for_voters);

    // and the new bag and its tail too, to move
    let mut list = four_voters();
    let mut some = part(&list, &[1, 2, 3, 4], &[10, 1_000]);
    let node = Node::get(&list, &3).unwrap();
    list.insert(5, 2_000);
    assert_eq!(list.update_position_for(node.clone(), 3), Some((1_000, 10)));
    assert_eq!(some.update_position_for(node, 3), Some((1_000, 10)));
    for id in [1u32, 2, 3, 4] {
        assert_eq!(some.voter_nodes.get(&id), list.voter_nodes.get(&id));
    }
    assert_eq!(some.voter_bags.get(&10), list.voter_bags.get(&10));
    assert_eq!(some.voter_bags.get(&1_000), list.voter_bags.get(&1_000));
}

#[test]
fn a_list_without_thresholds_has_one_bag() {
    let mut list: List<u64> = List::new(Vec::new());
    list.insert(3, 1);
    list.insert(1, u64::MAX);
    list.insert(2, 0);
    let ids: Vec<u64> = list.iter().iter().map(|node| node.id).collect();
    assert_eq!(ids, vec![3, 1, 2]);
    assert_eq!(list.sanity_check(), Ok(()));
}

#[test]
fn update_position_moves_to_the_bag_for_the_weight() {
    let mut list = four_voters();

    // a head, the only one of its bag
    let node = Node::get(&list, &1).unwrap();
    assert!(!node.is_misplaced(&list, 10));
    assert!(node.is_misplaced(&list, 20));
    assert_eq!(list.update_position_for(node, 20), Some((10, 20)));
    assert_eq!(lines(&list), vec![(20, vec![1]), (1_000, vec![2, 3, 4])]);

    // already there
    let node = Node::get(&list, &1).unwrap();
    assert_eq!(list.update_position_for(node, 11), None);
    assert_eq!(lines(&list), vec![(20, vec![1]), (1_000, vec![2, 3, 4])]);

    // a middle node, into a bag that is there
    let node = Node::get(&list, &3).unwrap();
    assert_eq!(list.update_position_for(node, 15), Some((1_000, 20)));
    assert_eq!(lines(&list), vec![(20, vec![1, 3]), (1_000, vec![2, 4])]);

    // a tail, above all thresholds
    let node = Node::get(&list, &4).unwrap();
    assert_eq!(list.update_position_for(node, 10_001), Some((1_000, u64::MAX)));
    assert_eq!(
        lines(&list),
        vec![(20, vec![1, 3]), (1_000, vec![2]), (u64::MAX, vec![4])]
    );
    assert_eq!(
        Node::get(&list, &4),
        Some(Node { id: 4u32, prev: None, next: None, bag_upper: u64::MAX })
    );
    assert_eq!(list.counter_for_voters, 4);
    assert_eq!(list.sanity_check(), Ok(()));
}

#[test]
fn update_position_is_remove_and_insert() {
    let mut updated = four_voters();
    let node = Node::get(&updated, &2).unwrap();
    updated.update_position_for(node, 10);
    let mut replaced = four_voters();
    replaced.remove(&2);
    replaced.insert(2, 10);
    assert_eq!(updated.voter_nodes, replaced.voter_nodes);
    assert_eq!(lines(&updated), lines(&replaced));
    assert_eq!(lines(&updated), vec![(10, vec![1, 2]), (1_000, vec![3, 4])]);
}

fn weight_of(id: &u32) -> u64 {
    match *id {
        7 => 20_000,
        id => (id as u64) * 11,
    }
}

fn assert_everybody_placed(list: &List<u32>, weight_of: impl Fn(&u32) -> u64) {
    for (id, node) in list.voter_nodes.iter() {
        assert_eq!(node.bag_upper, notional_bag_for(&list.bag_thresholds, weight_of(id)));
        assert!(line(list, node.bag_upper).contains(id));
    }
}

#[test]
fn everybody_stands_in_the_bag_for_their_weight() {
    let mut list: List<u32> = List::new(THRESHOLDS.to_vec());
    list.insert_many(vec![3, 1, 7, 2, 100, 4], weight_of);
    assert_everybody_placed(&list, weight_of);
    list.remove_many(&[1, 100]);
    assert_everybody_placed(&list, weight_of);
    assert_eq!(listed(&list), vec![7, 4, 3, 2]);

    // voter 4 comes to weigh more
    let weighs_now = |id: &u32| if *id == 4 { 5_000 } else { weight_of(id) };
    let node = Node::get(&list, &4).unwrap();
    assert_eq!(list.update_position_for(node, weighs_now(&4)), Some((50, 10_000)));
    assert_everybody_placed(&list, weighs_now);
    assert_eq!(listed(&list), vec![7, 4, 3, 2]);
}

#[test]
fn the_listing_has_everybody_once() {
    let mut list: List<u32> = List::new(THRESHOLDS.to_vec());
    list.insert_many(vec![3, 1, 7, 2, 100, 4, 5, 6], weight_of);
    let mut ids = listed(&list);
    assert_eq!(ids.len(), 8);
    ids.sort();
    assert_eq!(ids, vec![1, 2, 3, 4, 5, 6, 7, 100]);
    for node in list.iter() {
        assert_eq!(list.voter_nodes.get(&node.id), Some(&node));
    }
}

#[test]
fn a_bag_whose_threshold_is_listed_twice_is_listed_twice() {
    let mut list: List<u32> = List::new(vec![10, 10, 20]);
    list.insert(1, 15);
    assert_eq!(list.sanity_check(), Ok(()));
    list.insert(2, 5);
    assert_eq!(listed(&list), vec![1, 2, 2]);
    assert_eq!(list.sanity_check(), Err("duplicate identified"));
}

#[test]
fn inserting_leaves_the_others_where_they_stand() {
    let mut list = four_voters();
    let before = list.voter_nodes.clone();
    list.insert(9, 999);
    for (id, node) in before.iter() {
        let after = Node::get(&list, id).unwrap();
        assert_eq!(after.bag_upper, node.bag_upper);
        assert_eq!(after.prev, node.prev);
        if node.next.is_some() {
            assert_eq!(after.next, node.next);
        }
    }
    let node = Node::get(&list, &9).unwrap();
    assert_eq!((node.prev, node.next), (Some(4), None));
}

#[test]
fn bags_keep_to_the_thresholds() {
    let mut list = four_voters();
    list.insert(5, 77);
    list.insert(6, 777_777);
    list.remove(&1);
    let node = Node::get(&list, &3).unwrap();
    list.update_position_for(node, 33);
    for upper in list.voter_bags.keys() {
        assert!(THRESHOLDS.contains(upper) || *upper == u64::MAX);
    }
}

#[test]
fn removals_of_nobody_change_nothing() {
    let mut list = four_voters();
    let before = lines(&list);
    list.remove_many(&[]);
    list.remove_many(&[70, 71]);
    assert_eq!(lines(&list), before);
    assert_eq!(list.counter_for_voters, 4);
}

#[test]
fn regenerating_counts_an_id_as_often_as_it_is_given() {
    let mut list = four_voters();
    assert_eq!(list.regenerate(vec![1, 1], |_: &u32| 10), 2);
    assert_eq!(lines(&list), vec![(10, vec![1])]);
    assert_eq!(list.sanity_check(), Err("iter_count != stored_count"));
}

/// An id that is no number.
#[derive(Clone, Debug, PartialEq, Eq, PartialOrd, Ord)]
struct Name(String);

impl AccountId for Name {
    fn lawful() {}
}

#[test]
fn ids_need_not_be_numbers() {
    let mut list: List<Name> = List::new(vec![10]);
    list.insert(Name("bob".to_string()), 3);
    list.insert(Name("alice".to_string()), 30);
    list.insert(Name("carol".to_string()), 4);
    list.remove(&Name("bob".to_string()));
    let names: Vec<String> = list.iter().iter().map(|node| node.id.0.clone()).collect();
    assert_eq!(names, vec!["alice".to_string(), "carol".to_string()]);
    assert_eq!(list.sanity_check(), Ok(()));
}
