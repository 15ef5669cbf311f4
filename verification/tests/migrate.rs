use bags_list::{notional_bag_for, Bag, List, Node};

fn lines(list: &List<u32>) -> Vec<(u64, Vec<u32>)> {
    list.voter_bags
        .keys()
        .map(|upper| {
            let bag = Bag::get(list, *upper).unwrap();
            let ids: Vec<u32> = bag.iter(list).iter().map(|node| *node.id()).collect();
            (*upper, ids)
        })
        .collect()
}

fn weight_of(id: &u32) -> u64 {
    match *id {
        1 => 10,
        2 | 3 | 4 => 1_000,
        710 => 15,
        711 => 16,
        712 => 2_000,
        other => other as u64,
    }
}

fn filled(thresholds: &[u64], ids: &[u32]) -> List<u32> {
    let mut list: List<u32> = List::new(thresholds.to_vec());
    list.insert_many(ids.to_vec(), weight_of);
    list
}

const OLD: [u64; 9] = [10, 20, 30, 40, 50, 60, 1_000, 2_000, 10_000];

#[test]
fn migrating_adds_and_removes_thresholds() {
    let mut list = filled(&OLD, &[1, 2, 3, 4, 710, 711, 712]);
    assert_eq!(
        lines(&list),
        vec![
            (10, vec![1]),
            (20, vec![710, 711]),
            (1_000, vec![2, 3, 4]),
            (2_000, vec![712])
        ]
    );
    // 15 is new and 2_000 is no more
    list.bag_thresholds = vec![10, 15, 20, 30, 40, 50, 60, 1_000, 10_000];
    assert_eq!(list.migrate(&OLD, weight_of), 3);
    assert_eq!(
        lines(&list),
        vec![
            (10, vec![1]),
            (15, vec![710]),
            (20, vec![711]),
            (1_000, vec![2, 3, 4]),
            (10_000, vec![712])
        ]
    );
    assert_eq!(list.counter_for_voters, 7);
    assert_eq!(list.sanity_check(), Ok(()));
    for (id, node) in list.voter_nodes.iter() {
        assert_eq!(
            node.bag_upper,
            notional_bag_for(&list.bag_thresholds, weight_of(id))
        );
    }
}

#[test]
fn a_bag_is_rebagged_once_for_two_new_thresholds() {
    let mut list = filled(&[10, 20], &[9, 5, 0, 15]);
    list.bag_thresholds = vec![3, 5, 10, 20];
    assert_eq!(list.migrate(&[10, 20], weight_of), 3);
    assert_eq!(
        lines(&list),
        vec![(3, vec![0]), (5, vec![5]), (10, vec![9]), (20, vec![15])]
    );
}

#[test]
fn a_new_greatest_threshold_divides_the_last_bag() {
    let mut list = filled(&[10], &[50, 20, 30, 5]);
    assert_eq!(lines(&list), vec![(10, vec![5]), (u64::MAX, vec![50, 20, 30])]);
    list.bag_thresholds = vec![10, 30];
    assert_eq!(list.migrate(&[10], weight_of), 3);
    // whoever is rebagged joins in the order of the ids
    assert_eq!(
        lines(&list),
        vec![(10, vec![5]), (30, vec![20, 30]), (u64::MAX, vec![50])]
    );
    assert_eq!(list.sanity_check(), Ok(()));
}

#[test]
fn a_removed_threshold_joins_its_bag_with_the_next() {
    let mut list = filled(&[10, 20, 30], &[25, 15, 12, 8]);
    list.bag_thresholds = vec![10, 30];
    assert_eq!(list.migrate(&[10, 20, 30], weight_of), 2);
    assert_eq!(lines(&list), vec![(10, vec![8]), (30, vec![25, 12, 15])]);
    assert_eq!(Node::get(&list, &25).unwrap().next, Some(12));
    assert_eq!(list.sanity_check(), Ok(()));
}

#[test]
fn without_a_difference_nothing_is_migrated() {
    let mut list = filled(&OLD, &[711, 710, 4, 2, 1]);
    let nodes = list.voter_nodes.clone();
    let before = lines(&list);
    assert_eq!(list.migrate(&OLD, weight_of), 0);
    assert_eq!(list.voter_nodes, nodes);
    assert_eq!(lines(&list), before);
    assert_eq!(list.counter_for_voters, 5);
}

#[test]
fn listing_the_greatest_weight_is_no_difference() {
    for (old, new) in [(vec![10], vec![10, u64::MAX]), (vec![10, u64::MAX], vec![10])] {
        let mut list = filled(&old, &[52, 51, 5]);
        list.bag_thresholds = new;
        assert_eq!(list.migrate(&old, weight_of), 0);
        assert_eq!(lines(&list), vec![(10, vec![5]), (u64::MAX, vec![52, 51])]);
    }
}

#[test]
fn dropping_the_greatest_weight_rebags_its_voters() {
    let mut list = filled(&[10, u64::MAX], &[20, 5, 30]);
    list.bag_thresholds = vec![10, 40];
    assert_eq!(list.migrate(&[10, u64::MAX], weight_of), 2);
    assert_eq!(lines(&list), vec![(10, vec![5]), (40, vec![20, 30])]);
}

#[test]
fn a_voter_above_all_thresholds_keeps_the_last_bag() {
    let mut list = filled(&[10, u64::MAX], &[20, 5, 60, 50]);
    list.bag_thresholds = vec![10, 40];
    assert_eq!(list.migrate(&[10, u64::MAX], weight_of), 3);
    assert_eq!(
        lines(&list),
        vec![(10, vec![5]), (40, vec![20]), (u64::MAX, vec![50, 60])]
    );
    assert_eq!(list.sanity_check(), Ok(()));
}

#[test]
fn a_removed_bag_is_dropped_even_with_nobody_in_it() {
    let mut list = filled(&[10, 20], &[5]);
    list.voter_bags.insert(20, Bag::new(None, Some(9), 20));
    list.bag_thresholds = vec![10];
    assert_eq!(list.migrate(&[10, 20], weight_of), 0);
    assert_eq!(list.voter_bags.get(&20), None);
    assert_eq!(lines(&list), vec![(10, vec![5])]);
}
