use bags_list::{Bag, List, Node};

fn list_of(bags: &[(u64, &[u32])]) -> List<u32> {
    let mut list: List<u32> = List::new(bags.iter().map(|(upper, _)| *upper).collect());
    for (upper, ids) in bags {
        for id in ids.iter() {
            list.insert(*id, *upper);
        }
    }
    list
}

fn ids(bag: &Bag<u32>, list: &List<u32>) -> Vec<u32> {
    bag.iter(list).iter().map(|node| *node.id()).collect()
}

#[test]
fn bags_are_got_made_and_put() {
    let mut list = list_of(&[(10, &[1, 2]), (20, &[])]);
    assert_eq!(Bag::get(&list, 20), None);
    assert_eq!(Bag::get(&list, u64::MAX), None);
    let made = Bag::get_or_make(&list, 20);
    assert_eq!(made, Bag::new(None, None, 20));
    assert!(made.is_empty());
    assert_eq!(Bag::<u32>::default(), Bag::new(None, None, 0));

    let got = Bag::get_or_make(&list, 10);
    assert_eq!(got, Bag::new(Some(1), Some(2), 10));
    assert!(!got.is_empty());
    assert_eq!(got.head(&list).unwrap().id, 1);
    assert_eq!(got.tail(&list).unwrap().id, 2);

    Bag::new(Some(5), None, 20).put(&mut list);
    assert_eq!(list.voter_bags.get(&20), Some(&Bag::new(Some(5), None, 20)));
    Bag::new(None, None, 20).put(&mut list);
    assert_eq!(list.voter_bags.get(&20), None);
}

#[test]
fn a_bag_got_has_the_threshold_it_was_got_by() {
    let mut list = list_of(&[(10, &[1])]);
    list.voter_bags.insert(10, Bag::new(Some(1), Some(1), 0));
    assert_eq!(Bag::get(&list, 10), Some(Bag::new(Some(1), Some(1), 10)));
}

#[test]
fn insert_node_overwrites_what_the_node_says() {
    let mut list = list_of(&[(10, &[1]), (20, &[])]);
    let mut bag = Bag::get(&list, 10).unwrap();
    let node = Node { id: 9u32, prev: Some(4), next: Some(5), bag_upper: 77 };
    bag.insert_node(&mut list, node);
    assert_eq!(bag, Bag::new(Some(1), Some(9), 10));
    assert_eq!(
        Node::get(&list, &9),
        Some(Node { id: 9, prev: Some(1), next: None, bag_upper: 10 })
    );
    assert_eq!(Node::get(&list, &1).unwrap().next, Some(9));
    assert_eq!(ids(&bag, &list), vec![1, 9]);

    let mut empty = Bag::get_or_make(&list, 20);
    empty.insert(&mut list, 3);
    assert_eq!(empty, Bag::new(Some(3), Some(3), 20));
}

#[test]
fn inserting_the_tail_is_passed_over() {
    let mut list = list_of(&[(10, &[1, 2])]);
    let nodes = list.voter_nodes.clone();
    let mut bag = Bag::get(&list, 10).unwrap();
    bag.insert(&mut list, 2);
    assert_eq!(bag, Bag::new(Some(1), Some(2), 10));
    assert_eq!(list.voter_nodes, nodes);
}

#[test]
fn remove_node_tells_whether_an_end_moved() {
    let mut list = list_of(&[(10, &[1, 2, 3, 4])]);
    let mut bag = Bag::get(&list, 10).unwrap();

    let middle = Node::get(&list, &2).unwrap();
    assert!(!bag.remove_node(&mut list, &middle));
    assert_eq!(ids(&bag, &list), vec![1, 3, 4]);
    // the node itself is still stored
    assert_eq!(Node::get(&list, &2), Some(middle));

    let head = Node::get(&list, &1).unwrap();
    assert!(bag.remove_node(&mut list, &head));
    assert_eq!(bag, Bag::new(Some(3), Some(4), 10));
    assert_eq!(Node::get(&list, &3).unwrap().prev, None);

    let tail = Node::get(&list, &4).unwrap();
    assert!(bag.remove_node(&mut list, &tail));
    assert_eq!(bag, Bag::new(Some(3), Some(3), 10));

    let last = Node::get(&list, &3).unwrap();
    assert!(bag.remove_node(&mut list, &last));
    assert!(bag.is_empty());
}

#[test]
fn nodes_know_their_neighbours() {
    let mut list = list_of(&[(10, &[1, 2, 3])]);
    let node = Node::get(&list, &2).unwrap();
    assert_eq!(node.id(), &2);
    assert_eq!(node.prev(&list), Node::get(&list, &1));
    assert_eq!(node.next(&list), Node::get(&list, &3));
    assert!(!node.is_terminal());
    assert!(Node::get(&list, &1).unwrap().is_terminal());
    assert!(Node::get(&list, &3).unwrap().is_terminal());
    assert_eq!(Node::get(&list, &1).unwrap().prev(&list), None);

    node.excise(&mut list);
    assert_eq!(Node::get(&list, &1).unwrap().next, Some(3));
    assert_eq!(Node::get(&list, &3).unwrap().prev, Some(1));
    assert_eq!(Node::get(&list, &2), Some(node));

    Node { id: 8u32, prev: None, next: None, bag_upper: 4 }.put(&mut list);
    assert_eq!(Node::get(&list, &8).unwrap().bag_upper, 4);
}

#[test]
fn heads_and_tails_are_terminal() {
    let list = list_of(&[(10, &[1, 2, 3]), (20, &[4])]);
    for (id, node) in list.voter_nodes.iter() {
        let bag = Bag::get(&list, node.bag_upper).unwrap();
        assert_eq!(node.is_terminal(), bag.head == Some(*id) || bag.tail == Some(*id));
    }
}

#[test]
fn misplaced_means_another_bag_for_the_weight() {
    let list = list_of(&[(10, &[1]), (20, &[2])]);
    let node = Node::get(&list, &2).unwrap();
    assert!(node.is_misplaced(&list, 10));
    assert!(!node.is_misplaced(&list, 11));
    assert!(!node.is_misplaced(&list, 20));
    assert!(node.is_misplaced(&list, 21));
}

#[test]
fn a_sound_bag_passes() {
    let list = list_of(&[(10, &[1, 2, 3]), (20, &[])]);
    assert_eq!(Bag::get(&list, 10).unwrap().sanity_check(&list), Ok(()));
    assert_eq!(Bag::get_or_make(&list, 20).sanity_check(&list), Ok(()));
}

#[test]
fn a_head_with_a_prev_is_found() {
    let list = list_of(&[(10, &[1, 2, 3])]);
    let bag = Bag::new(Some(2), Some(3), 10);
    assert_eq!(bag.sanity_check(&list), Err("head has a prev"));
    // a bag whose head has no node must have no tail
    let bag = Bag::new(Some(9), Some(3), 10);
    assert_eq!(bag.sanity_check(&list), Err("head has a prev"));
}

#[test]
fn a_tail_with_a_next_is_found() {
    let list = list_of(&[(10, &[1, 2, 3])]);
    let bag = Bag::new(Some(1), Some(2), 10);
    assert_eq!(bag.sanity_check(&list), Err("tail has a next"));
    let bag = Bag::new(Some(1), Some(9), 10);
    assert_eq!(bag.sanity_check(&list), Err("tail has a next"));
}

#[test]
fn a_loop_in_a_bag_is_found() {
    let mut list = list_of(&[(10, &[1, 2, 3])]);
    // 2 leads back to 1, while 3 still ends the bag
    let mut node = Node::get(&list, &2).unwrap();
    node.next = Some(1);
    node.put(&mut list);
    let bag = Bag::get(&list, 10).unwrap();
    assert_eq!(bag.sanity_check(&list), Err("duplicate found in bag"));
    assert_eq!(list.sanity_check(), Err("duplicate identified"));
    assert!(!list.bags_end());
    assert!(!bag.ends(&list));
}

#[test]
fn a_tail_that_is_not_reached_is_found() {
    let mut list: List<u32> = List::new(vec![10]);
    Node { id: 1u32, prev: None, next: None, bag_upper: 10 }.put(&mut list);
    Node { id: 2u32, prev: None, next: None, bag_upper: 10 }.put(&mut list);
    let bag = Bag::new(Some(1), Some(2), 10);
    assert_eq!(bag.sanity_check(&list), Err("tail is not reached from head"));
    assert_eq!(Bag::new(Some(1), Some(1), 10).sanity_check(&list), Ok(()));

    // a way that leads to nobody comes short of the tail
    let mut list = list_of(&[(10, &[1, 2, 3])]);
    let mut node = Node::get(&list, &1).unwrap();
    node.next = Some(9);
    node.put(&mut list);
    let bag = Bag::get(&list, 10).unwrap();
    assert_eq!(bag.sanity_check(&list), Err("tail is not reached from head"));
    list.counter_for_voters = 1;
    assert_eq!(list.sanity_check(), Err("tail is not reached from head"));
}

#[test]
fn the_first_nodes_of_a_bag_can_be_taken() {
    let mut list = list_of(&[(10, &[4, 1, 3])]);
    let bag = Bag::get(&list, 10).unwrap();
    let first = |list: &List<u32>, n: usize| -> Vec<u32> {
        bag.iter_take(list, n).iter().map(|node| node.id).collect()
    };
    assert_eq!(first(&list, 0), Vec::<u32>::new());
    assert_eq!(first(&list, 2), vec![4, 1]);
    assert_eq!(first(&list, 3), vec![4, 1, 3]);
    assert_eq!(first(&list, 100), vec![4, 1, 3]);

    // even where there is no end
    let mut node = Node::get(&list, &3).unwrap();
    node.next = Some(1);
    node.put(&mut list);
    assert_eq!(first(&list, 6), vec![4, 1, 3, 1, 3, 1]);
}

#[test]
fn a_voter_in_two_bags_is_found() {
    let mut list = list_of(&[(10, &[1]), (20, &[2])]);
    Bag::get(&list, 10).unwrap().insert(&mut list, 2);
    assert_eq!(list.sanity_check(), Err("duplicate identified"));
}

#[test]
fn a_counter_out_of_sync_is_found() {
    let mut list = list_of(&[(10, &[1]), (20, &[2])]);
    list.counter_for_voters += 1;
    assert_eq!(list.sanity_check(), Err("iter_count != stored_count"));
    list.counter_for_voters -= 1;
    assert_eq!(list.sanity_check(), Ok(()));
}

#[test]
fn faults_of_bags_are_passed_on() {
    let mut list = list_of(&[(10, &[1, 2]), (20, &[3, 4])]);
    list.voter_bags.insert(20, Bag::new(Some(3), Some(3), 20));
    assert_eq!(list.sanity_check(), Err("tail has a next"));
}

#[test]
fn the_bag_above_all_thresholds_is_looked_into_as_well() {
    let mut list = list_of(&[(10, &[1])]);
    list.insert(2, 11);
    list.insert(3, 12);
    assert_eq!(list.sanity_check(), Ok(()));
    list.voter_bags.insert(u64::MAX, Bag::new(Some(2), Some(2), u64::MAX));
    assert_eq!(list.sanity_check(), Err("tail has a next"));
}

#[test]
fn endless_bags_are_told_from_others() {
    let mut list = list_of(&[(10, &[1, 2]), (20, &[3])]);
    assert!(list.bags_end());
    assert!(Bag::get_or_make(&list, u64::MAX).ends(&list));

    // a node that leads to itself
    let mut node = Node::get(&list, &3).unwrap();
    node.next = Some(3);
    node.put(&mut list);
    assert!(!list.bags_end());
    assert!(Bag::get(&list, 10).unwrap().ends(&list));
    assert!(!Bag::get(&list, 20).unwrap().ends(&list));

    // a link to nobody ends a bag
    let mut node = Node::get(&list, &3).unwrap();
    node.next = Some(99);
    node.put(&mut list);
    assert!(list.bags_end());
    assert_eq!(ids(&Bag::get(&list, 20).unwrap(), &list), vec![3]);
}

#[test]
fn a_stray_node_is_removed_without_its_bag() {
    // a node that names a bag without being linked into it
    let mut list = list_of(&[(10, &[1, 2])]);
    Node { id: 7u32, prev: None, next: None, bag_upper: 10 }.put(&mut list);
    list.remove(&7);
    assert_eq!(Node::get(&list, &7), None);
    assert_eq!(Bag::get(&list, 10), Some(Bag::new(Some(1), Some(2), 10)));
    assert_eq!(list.counter_for_voters, 1);
}

#[test]
fn a_head_without_a_bag_is_put_into_its_new_bag() {
    let mut list = list_of(&[(10, &[1, 2]), (20, &[])]);
    list.voter_bags.clear();
    let node = Node::get(&list, &1).unwrap();
    assert_eq!(list.update_position_for(node, 15), Some((10, 20)));
    assert_eq!(ids(&Bag::get(&list, 20).unwrap(), &list), vec![1]);
    // nothing was taken out of the missing bag
    assert_eq!(Node::get(&list, &2).unwrap().prev, Some(1));
}
