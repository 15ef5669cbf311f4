//! The voter list.

use crate::account::{copy_id, lemma_weights_ordered, ordered, AccountId};
use crate::bag::Bag;
use crate::following::{
    every_bag_is_sound, every_way_ends, law_list_check_passes_sound_lists_alone, meets_once,
};
use crate::joining::{
    law_insert_joins_the_end, law_insert_many_joins_in_turn, lemma_all_inserted_counter,
};
use crate::laws::{
    law_insert_keeps_to_the_thresholds, law_one_bag_each, law_remove_keeps_to_the_thresholds,
    law_update_keeps_to_the_thresholds,
};
use crate::leaving::{law_move_joins_the_end, law_remove_leaves_the_others, lemma_removal};
use crate::links::{
    lemma_joined_once, lemma_linked_ends, lemma_listing_grows, lemma_start_of,
    lemma_start_of_listing, lemma_traversal,
};
use crate::model::{
    all_joined, all_left, first_n, ids, joined, line, nothing, settled, stored, traversal, walk,
    walk_ends, Contents,
};
use crate::node::Node;
use crate::thresholds::{
    all_uppers, is_bag, law_notional_bag_is_least, lemma_all_uppers, notional_bag, notional_bag_for,
    sorted, uppers_of,
};
use frame_election_provider_support::VoteWeight;
use sp_std::collections::btree_map::BTreeMap;
use sp_std::collections::btree_set::BTreeSet;
use vstd::prelude::*;

verus! {

/// Data structure providing efficient mostly-accurate selection of the top N voters by stake.
///
/// It's implemented as a set of linked lists. Each linked list comprises a bag of voters of
/// arbitrary and unbounded length, all having a vote weight within a particular constant range.
/// This structure means that adding, removing or moving a voter looks at a few nodes and bags,
/// however many there are.
///
/// Iteration is accomplished by chaining the iteration of each bag, from greatest to least.
/// While the users within any particular bag are sorted in an entirely arbitrary order, the overall
/// stake decreases as successive bags are reached. This means that it is valid to truncate
/// iteration at any desired point; only those voters in the lowest bag (who are known to have
/// relatively little power to affect the outcome) can be excluded. This satisfies both the desire
/// for fairness and the requirement for efficiency.
pub struct List<A> {
    /// The node of each voter.
    pub voter_nodes: BTreeMap<A, Node<A>>,
    /// The bags by their upper threshold.
    pub voter_bags: BTreeMap<VoteWeight, Bag<A>>,
    /// The number of voters.
    pub counter_for_voters: u32,
    /// The thresholds that separate the bags.
    pub bag_thresholds: Vec<VoteWeight>,
}

impl<A> View for List<A> {
    type V = Contents<A>;

    open spec fn view(&self) -> Contents<A> {
        Contents {
            nodes: self.voter_nodes@,
            bags: self.voter_bags@,
            counter: self.counter_for_voters,
        }
    }
}

/// `weights` are what `weight_of` may answer for each of `voters`.
pub open spec fn weighed<A, F: Fn(&A) -> VoteWeight>(
    weight_of: F,
    voters: Seq<A>,
    weights: Seq<VoteWeight>,
) -> bool {
    &&& weights.len() == voters.len()
    &&& forall|i: int|
        0 <= i < voters.len() ==> call_ensures(weight_of, (&voters[i],), #[trigger] weights[i])
}

/// `weight_of` can be asked about each of `voters`.
pub open spec fn can_weigh<A, F: Fn(&A) -> VoteWeight>(weight_of: F, voters: Seq<A>) -> bool {
    forall|i: int| 0 <= i < voters.len() ==> call_requires(weight_of, (&#[trigger] voters[i],))
}

impl<A: AccountId> List<A> {
    /// A list without voters.
    pub fn new(bag_thresholds: Vec<VoteWeight>) -> (r: List<A>)
        ensures
            r@.nodes == Map::<A, Node<A>>::empty(),
            r@.bags == Map::<VoteWeight, Bag<A>>::empty(),
            r@.counter == 0,
            r.bag_thresholds == bag_thresholds,
            r@.linked(),
            r@.counted(),
    {
        let r = List {
            voter_nodes: BTreeMap::new(),
            voter_bags: BTreeMap::new(),
            counter_for_voters: 0,
            bag_thresholds,
        };
        assert(r@.lines() =~= Map::<VoteWeight, Seq<A>>::empty());
        r
    }

    /// Remove all data associated with the voter list.
    pub fn clear(&mut self)
        ensures
            final(self)@.nodes == Map::<A, Node<A>>::empty(),
            final(self)@.bags == Map::<VoteWeight, Bag<A>>::empty(),
            final(self)@.counter == 0,
            final(self).bag_thresholds == old(self).bag_thresholds,
            final(self)@.linked(),
            final(self)@.counted(),
    {
        self.counter_for_voters = 0;
        self.voter_bags.clear();
        self.voter_nodes.clear();
        assert(self@.lines() =~= Map::<VoteWeight, Seq<A>>::empty());
    }

    /// Insert a new voter into the appropriate bag in the voter list. Does not check for duplicates.
    ///
    /// Do not insert an id that already exists in the list: the links are sound afterwards only
    /// where they were sound before and the voter is new.
    pub fn insert(&mut self, voter: A, weight: VoteWeight)
        requires
            sorted(old(self).bag_thresholds@),
        ensures
            final(self)@ == old(self)@.inserted(old(self).bag_thresholds@, voter, weight),
            final(self).bag_thresholds == old(self).bag_thresholds,
            old(self)@.bagged_by(old(self).bag_thresholds@) ==> final(self)@.bagged_by(
                old(self).bag_thresholds@,
            ),
            old(self)@.linked() && !old(self)@.nodes.contains_key(voter) ==> {
                &&& final(self)@.linked()
                &&& final(self)@.lines() == joined(
                    old(self)@.lines(),
                    notional_bag(old(self).bag_thresholds@, weight),
                    voter,
                )
                &&& final(self)@.nodes.dom() == old(self)@.nodes.dom().insert(voter)
                &&& old(self)@.counted() && old(self)@.counter < u32::MAX
                    ==> final(self)@.counted()
            },
    {
        proof {
            if self@.linked() && !self@.nodes.contains_key(voter) {
                law_insert_joins_the_end(self@, self.bag_thresholds@, voter, weight);
            }
            if self@.bagged_by(self.bag_thresholds@) {
                law_insert_keeps_to_the_thresholds(self@, self.bag_thresholds@, voter, weight);
            }
        }
        let bag_weight: VoteWeight = notional_bag_for(&self.bag_thresholds, weight);
        proof {
            law_notional_bag_is_least(self.bag_thresholds@, weight);
        }
        let mut bag = Bag::get_or_make(self, bag_weight);
        bag.insert(self, voter);

        // new inserts are always the tail, so we must write the bag.
        bag.put(self);

        self.counter_for_voters = self.counter_for_voters.saturating_add(1);
    }

    /// Insert several voters into the appropriate bags in the voter list. Does not check for
    /// duplicates.
    ///
    /// Do not insert an id that already exists in the list, nor one id twice: the links are sound
    /// afterwards only where they were sound before and each voter is new.
    pub fn insert_many<F: Fn(&A) -> VoteWeight>(&mut self, voters: Vec<A>, weight_of: F)
        requires
            sorted(old(self).bag_thresholds@),
            can_weigh(weight_of, voters@),
        ensures
            final(self).bag_thresholds == old(self).bag_thresholds,
            old(self)@.bagged_by(old(self).bag_thresholds@) ==> final(self)@.bagged_by(
                old(self).bag_thresholds@,
            ),
            exists|weights: Seq<VoteWeight>|
                {
                    &&& #[trigger] weighed(weight_of, voters@, weights)
                    &&& final(self)@ == old(self)@.all_inserted(
                        old(self).bag_thresholds@,
                        voters@,
                        weights,
                    )
                    &&& old(self)@.linked() && voters@.no_duplicates()
                        && old(self)@.nodes.dom().disjoint(voters@.to_set()) ==> {
                        &&& final(self)@.linked()
                        &&& final(self)@.lines() == all_joined(
                            old(self)@.lines(),
                            old(self).bag_thresholds@,
                            voters@,
                            weights,
                        )
                        &&& final(self)@.nodes.dom() == old(self)@.nodes.dom().union(
                            voters@.to_set(),
                        )
                        &&& old(self)@.counted() && old(self)@.counter + voters@.len() <= u32::MAX
                            ==> final(self)@.counted()
                    }
                },
    {
        let ghost start = self@;
        let ghost thresholds = self.bag_thresholds@;
        let ghost mut weights: Seq<VoteWeight> = Seq::empty();
        let mut i: usize = 0;
        assert(voters@.take(0) =~= Seq::empty());
        while i < voters.len()
            invariant
                i <= voters@.len(),
                sorted(thresholds),
                self.bag_thresholds == old(self).bag_thresholds,
                self.bag_thresholds@ == thresholds,
                can_weigh(weight_of, voters@),
                start.bagged_by(thresholds) ==> self@.bagged_by(thresholds),
                weighed(weight_of, voters@.take(i as int), weights),
                self@ == start.all_inserted(thresholds, voters@.take(i as int), weights),
            decreases voters@.len() - i,
        {
            let weight: VoteWeight = weight_of(&voters[i]);
            self.insert(copy_id(&voters[i]), weight);
            proof {
                let longer = voters@.take(i + 1);
                assert(longer.drop_last() =~= voters@.take(i as int));
                assert(weights.push(weight).drop_last() =~= weights);
                weights = weights.push(weight);
            }
            i += 1;
        }
        proof {
            assert(voters@.take(voters@.len() as int) =~= voters@);
            if start.linked() && voters@.no_duplicates() && start.nodes.dom().disjoint(
                voters@.to_set(),
            ) {
                assert forall|i: int| 0 <= i < voters@.len() implies !start.nodes.contains_key(
                    #[trigger] voters@[i],
                ) by {
                    assert(voters@.to_set().contains(voters@[i]));
                }
                law_insert_many_joins_in_turn(start, thresholds, voters@, weights);
            }
        }
    }

    /// Remove a voter (by id) from the voter list.
    pub fn remove(&mut self, voter: &A)
        ensures
            final(self)@ == old(self)@.all_removed(seq![*voter]),
            final(self).bag_thresholds == old(self).bag_thresholds,
            old(self)@.linked() ==> {
                &&& final(self)@.linked()
                &&& final(self)@.lines() == all_left(
                    old(self)@.lines(),
                    Set::empty().insert(*voter),
                )
                &&& final(self)@.nodes.dom() == old(self)@.nodes.dom().remove(*voter)
                &&& final(self)@.counter == (if old(self)@.nodes.contains_key(*voter)
                    && old(self)@.counter > 0 {
                    old(self)@.counter - 1
                } else {
                    old(self)@.counter as int
                })
                &&& old(self)@.counted() ==> final(self)@.counted()
                &&& old(self)@.bagged_by(old(self).bag_thresholds@) ==> final(self)@.bagged_by(
                    old(self).bag_thresholds@,
                )
            },
    {
        let mut voters: Vec<A> = Vec::new();
        voters.push(copy_id(voter));
        let ghost before = self@.nodes.dom();
        assert(voters@ =~= seq![*voter]);
        self.remove_many(&voters);
        proof {
            let gone = Set::empty().insert(*voter);
            assert(voters@[0] == *voter);
            assert(voters@.to_set() =~= gone);
            assert(before.difference(gone) =~= before.remove(*voter));
            if before.contains(*voter) {
                assert(before.intersect(gone) =~= gone);
            } else {
                assert(before.intersect(gone) =~= Set::empty());
            }
        }
    }

    /// Remove many voters (by id) from the voter list. Ids of nobody in the list are passed over.
    pub fn remove_many(&mut self, voters: &[A])
        requires
            voters@.len() <= u32::MAX || old(self)@.linked() && old(self)@.nodes.dom().len()
                <= u32::MAX,
        ensures
            final(self)@ == old(self)@.all_removed(voters@),
            final(self).bag_thresholds == old(self).bag_thresholds,
            old(self)@.linked() ==> {
                &&& final(self)@.linked()
                &&& final(self)@.lines() == all_left(old(self)@.lines(), voters@.to_set())
                &&& final(self)@.nodes.dom() == old(self)@.nodes.dom().difference(voters@.to_set())
                &&& final(self)@.counter == ({
                    let count = old(self)@.nodes.dom().intersect(voters@.to_set()).len();
                    if count <= old(self)@.counter {
                        old(self)@.counter - count
                    } else {
                        0
                    }
                })
                &&& old(self)@.counted() ==> final(self)@.counted()
                &&& old(self)@.bagged_by(old(self).bag_thresholds@) ==> final(self)@.bagged_by(
                    old(self).bag_thresholds@,
                )
            },
    {
        proof {
            A::lawful();
            lemma_weights_ordered();
        }
        let ghost start = self@;
        let mut bags: BTreeMap<VoteWeight, Bag<A>> = BTreeMap::new();
        let mut count: u32 = 0;
        let mut i: usize = 0;
        while i < voters.len()
            invariant
                ordered::<A>(),
                ordered::<VoteWeight>(),
                i <= voters@.len(),
                voters@.len() <= u32::MAX || start.linked() && start.nodes.dom().len() <= u32::MAX,
                self.bag_thresholds == old(self).bag_thresholds,
                self@.bags == start.bags,
                self@.counter == start.counter,
                self@.nodes == start.removal(voters@.take(i as int)).nodes,
                bags@ == start.removal(voters@.take(i as int)).bags,
                count == start.removal(voters@.take(i as int)).count,
                count <= i,
                forall|upper: VoteWeight| #[trigger]
                    bags@.contains_key(upper) ==> bags@[upper].bag_upper == upper,
            decreases voters@.len() - i,
        {
            let voter_id = &voters[i];
            proof {
                let longer = voters@.take(i + 1);
                assert(longer.drop_last() =~= voters@.take(i as int));
                assert(longer.last() == *voter_id);
                if start.linked() {
                    lemma_removal(start, longer);
                }
            }
            i += 1;
            if let Some(node) = Node::get(self, voter_id) {
                count += 1;
                if !node.is_terminal() {
                    // this node is not a head or a tail and thus the bag does not need to be
                    // updated.
                    node.excise(self);
                } else {
                    // this node is a head or tail, so the bag needs to be updated
                    let ghost before = bags@;
                    let mut bag = match bags.remove(&node.bag_upper) {
                        Some(bag) => bag,
                        None => Bag::stored_at_or_new(self, node.bag_upper),
                    };
                    bag.remove_node(self, &node);
                    bags.insert(node.bag_upper, bag);
                    assert(bags@ =~= before.insert(node.bag_upper, bag));
                }

                // now get rid of the node itself
                self.voter_nodes.remove(voter_id);
            }
        }
        self.put_all(&bags);
        self.counter_for_voters = self.counter_for_voters.saturating_sub(count);
        proof {
            assert(voters@.take(voters@.len() as int) =~= voters@);
            assert(self@ =~= start.all_removed(voters@));
            if start.linked() {
                law_remove_leaves_the_others(start, voters@);
                if start.bagged_by(self.bag_thresholds@) {
                    law_remove_keeps_to_the_thresholds(start, self.bag_thresholds@, voters@);
                }
            }
        }
    }

    /// Update a voter's position in the voter list.
    ///
    /// If the voter was in the correct bag, no effect. If the voter was in the incorrect bag, they
    /// are moved into the correct bag.
    ///
    /// Returns `Some((old_idx, new_idx))` if the voter moved, otherwise `None`.
    pub fn update_position_for(&mut self, node: Node<A>, new_weight: VoteWeight) -> (r: Option<
        (VoteWeight, VoteWeight),
    >)
        requires
            sorted(old(self).bag_thresholds@),
        ensures
            ({
                let new_upper = notional_bag(old(self).bag_thresholds@, new_weight);
                if new_upper == node.bag_upper {
                    &&& r is None
                    &&& final(self)@ == old(self)@
                } else {
                    &&& r == Some((node.bag_upper, new_upper))
                    &&& final(self)@ == old(self)@.moved(
                        old(self).bag_thresholds@,
                        node,
                        new_weight,
                    )
                    &&& old(self)@.linked() && stored(old(self)@.nodes, Some(node.id)) == Some(node)
                        ==> {
                        &&& final(self)@.linked()
                        &&& final(self)@.lines() == joined(
                            all_left(old(self)@.lines(), Set::empty().insert(node.id)),
                            new_upper,
                            node.id,
                        )
                        &&& final(self)@.nodes.dom() == old(self)@.nodes.dom()
                        &&& final(self)@.nodes[node.id].bag_upper == new_upper
                    }
                }
            }),
            old(self)@.bagged_by(old(self).bag_thresholds@) ==> final(self)@.bagged_by(
                old(self).bag_thresholds@,
            ),
            final(self).bag_thresholds == old(self).bag_thresholds,
    {
        if !node.is_misplaced(self, new_weight) {
            return None;
        }
        let ghost start = self@;
        let ghost thresholds = self.bag_thresholds@;
        let ghost whole = node;
        let old_bag_upper: VoteWeight = node.bag_upper;
        if !node.is_terminal() {
            // this node is not a head or a tail, so we can just cut it out of the list.
            // update and put the prev and next of this node, the node itself is put later.
            node.excise(self);
        } else if let Some(mut bag) = Bag::stored_at(self, node.bag_upper) {
            // this is a head or tail, so the bag must be updated.
            bag.remove_node(self, &node);
            bag.put(self);
        }
        assert(self@ =~= start.detached(whole));

        // put the voter into the appropriate new bag.
        let new_bag_upper: VoteWeight = notional_bag_for(&self.bag_thresholds, new_weight);
        proof {
            law_notional_bag_is_least(self.bag_thresholds@, new_weight);
        }
        let mut bag = Bag::get_or_make(self, new_bag_upper);
        // prev, next, and bag_upper of the node are updated inside `insert_node`, which also puts
        // the node.
        bag.insert_node(self, node);
        bag.put(self);
        proof {
            assert(self@ =~= start.moved(thresholds, whole, new_weight));
            if start.bagged_by(thresholds) {
                law_update_keeps_to_the_thresholds(start, thresholds, whole, new_weight);
            }
            if start.linked() && stored(start.nodes, Some(whole.id)) == Some(whole) {
                law_move_joins_the_end(start, thresholds, whole.id, new_weight);
                let gone = Set::empty().insert(whole.id);
                let joined_line = line(all_left(start.lines(), gone), new_bag_upper).push(whole.id);
                assert(joined_line.last() == whole.id && joined_line.contains(whole.id));
                law_one_bag_each(self@, whole.id, new_bag_upper);
            }
        }
        Some((old_bag_upper, new_bag_upper))
    }

    /// Regenerate voter data from the given ids.
    ///
    /// Returns the number of voters migrated, as far as it can be counted.
    pub fn regenerate<F: Fn(&A) -> VoteWeight>(&mut self, all: Vec<A>, weight_of: F) -> (r: u32)
        requires
            sorted(old(self).bag_thresholds@),
            can_weigh(weight_of, all@),
        ensures
            r == (if all@.len() <= u32::MAX {
                all@.len() as int
            } else {
                u32::MAX as int
            }),
            final(self).bag_thresholds == old(self).bag_thresholds,
            final(self)@.bagged_by(old(self).bag_thresholds@),
            exists|weights: Seq<VoteWeight>|
                {
                    &&& #[trigger] weighed(weight_of, all@, weights)
                    &&& final(self)@ == nothing().all_inserted(
                        old(self).bag_thresholds@,
                        all@,
                        weights,
                    )
                    &&& all@.no_duplicates() ==> {
                        &&& final(self)@.linked()
                        &&& final(self)@.lines() == all_joined(
                            Map::empty(),
                            old(self).bag_thresholds@,
                            all@,
                            weights,
                        )
                        &&& final(self)@.nodes.dom() == all@.to_set()
                        &&& all@.len() <= u32::MAX ==> final(self)@.counted()
                    }
                },
    {
        self.clear();
        let ghost thresholds = self.bag_thresholds@;
        let ghost voters = all@;
        assert(self@ =~= nothing());
        assert(nothing::<A>().lines() =~= Map::empty());
        assert(nothing::<A>().nodes.dom().union(voters.to_set()) =~= voters.to_set());
        self.insert_many(all, weight_of);
        proof {
            let weights = choose|weights: Seq<VoteWeight>|
                {
                    &&& #[trigger] weighed(weight_of, voters, weights)
                    &&& self@ == nothing().all_inserted(thresholds, voters, weights)
                    &&& voters.no_duplicates() ==> {
                        &&& self@.linked()
                        &&& self@.lines() == all_joined(Map::empty(), thresholds, voters, weights)
                        &&& self@.nodes.dom() == voters.to_set()
                        &&& voters.len() <= u32::MAX ==> self@.counted()
                    }
                };
            lemma_all_inserted_counter(nothing(), thresholds, voters, weights);
        }
        self.counter_for_voters
    }

    /// All nodes in all bags in the voter list, from the greatest bag to the least.
    ///
    /// The greatest vote weight ends the thresholds even where they omit it.
    pub fn iter(&self) -> (r: Vec<Node<A>>)
        requires
            self@.linked() || self@.listing_ends(self.bag_thresholds@),
        ensures
            r@ == self@.listing(self.bag_thresholds@),
    {
        let ghost thresholds = self.bag_thresholds@;
        let uppers = uppers_of(&self.bag_thresholds);
        let ghost descending = uppers@.reverse();
        proof {
            if self@.linked() {
                lemma_linked_ends(self@, thresholds);
            }
        }
        let mut found: Vec<Node<A>> = Vec::new();
        let mut left: usize = uppers.len();
        while left > 0
            invariant
                thresholds == self.bag_thresholds@,
                self@.listing_ends(thresholds),
                uppers@ == all_uppers(thresholds),
                descending == uppers@.reverse(),
                left <= uppers@.len(),
                found@ == self@.listing_of(descending, (uppers@.len() - left) as nat),
            decreases left,
        {
            left -= 1;
            let upper: VoteWeight = uppers[left];
            proof {
                lemma_all_uppers(thresholds);
                assert(uppers@.contains(upper));
                assert(is_bag(thresholds, upper));
                assert(descending[uppers@.len() - left - 1] == upper);
            }
            match Bag::get(self, upper) {
                Some(bag) => {
                    let mut voters = bag.iter(self);
                    found.append(&mut voters);
                },
                None => {
                    proof {
                        assert(walk(self@.nodes, None, 1).len() < 1);
                        lemma_traversal(self@.nodes, None, 1);
                        assert(found@ + walk(self@.nodes, None, 1) =~= found@);
                    }
                },
            }
        }
        found
    }

    /// The first `n` nodes in the voter list, from the greatest bag to the least, or all of them where
    /// there are fewer.
    ///
    /// Going through the whole list can be expensive; only as many nodes are looked at as are asked
    /// for.
    pub fn iter_take(&self, n: usize) -> (r: Vec<Node<A>>)
        ensures
            r@ == self@.listing_start(self.bag_thresholds@, n as nat),
            self@.linked() || self@.listing_ends(self.bag_thresholds@) ==> r@ == first_n(
                self@.listing(self.bag_thresholds@),
                n as nat,
            ),
    {
        let ghost thresholds = self.bag_thresholds@;
        let uppers = uppers_of(&self.bag_thresholds);
        let ghost descending = uppers@.reverse();
        let mut found: Vec<Node<A>> = Vec::new();
        let mut left: usize = uppers.len();
        while left > 0 && found.len() < n
            invariant
                thresholds == self.bag_thresholds@,
                uppers@ == all_uppers(thresholds),
                descending == uppers@.reverse(),
                left <= uppers@.len(),
                found@.len() <= n,
                found@ == self@.start_of(
                    descending,
                    (uppers@.len() - left) as nat,
                    n as nat,
                ),
            decreases left,
        {
            left -= 1;
            let upper: VoteWeight = uppers[left];
            let ghost k = (uppers@.len() - left) as nat;
            proof {
                lemma_all_uppers(thresholds);
                assert(uppers@.contains(upper));
                assert(is_bag(thresholds, upper));
                assert(descending[k - 1] == upper);
                lemma_start_of(self@, descending, k, k, n as nat);
            }
            let bag = Bag::get_or_make(self, upper);
            let mut voters = bag.iter_take(self, n - found.len());
            found.append(&mut voters);
        }
        proof {
            lemma_start_of(
                self@,
                descending,
                (uppers@.len() - left) as nat,
                descending.len(),
                n as nat,
            );
            if self@.linked() {
                lemma_linked_ends(self@, thresholds);
            }
            if self@.listing_ends(thresholds) {
                lemma_all_uppers(thresholds);
                assert forall|i: int| 0 <= i < descending.len() implies walk_ends(
                    self@.nodes,
                    self@.bag_or_new(#[trigger] descending[i]).head,
                ) by {
                    assert(uppers@.contains(uppers@[uppers@.len() - 1 - i]));
                    assert(is_bag(thresholds, descending[i]));
                }
                lemma_start_of_listing(self@, descending, descending.len(), n as nat);
            }
        }
        found
    }

    /// Sanity check the voter list.
    ///
    /// It checks that:
    ///
    /// * Iterate all voters in list and make sure there are no duplicates.
    /// * Iterate all voters and ensure their count is in sync with the counter.
    /// * Sanity-checks all bags.
    pub fn sanity_check(&self) -> (r: Result<(), &'static str>)
        ensures
            match r {
                Ok(_) => self@.fault(self.bag_thresholds@) is None,
                Err(fault) => self@.fault(self.bag_thresholds@) == Some(fault@),
            },
            r is Ok <==> {
                &&& every_way_ends(self@, self.bag_thresholds@)
                &&& meets_once(self@.listing(self.bag_thresholds@))
                &&& self@.listing(self.bag_thresholds@).len() == self@.counter
                &&& every_bag_is_sound(self@, self.bag_thresholds@)
            },
    {
        proof {
            law_list_check_passes_sound_lists_alone(self@, self.bag_thresholds@);
        }
        let uppers = uppers_of(&self.bag_thresholds);
        if !self.all_once(&uppers) {
            return Err("duplicate identified");
        }
        let iter_count: usize = self.iter().len();
        if iter_count != self.counter_for_voters as usize {
            return Err("iter_count != stored_count");
        }
        let mut i: usize = 0;
        assert(uppers@.skip(0) =~= uppers@);
        while i < uppers.len()
            invariant
                i <= uppers@.len(),
                self@.first_fault(uppers@) == self@.first_fault(uppers@.skip(i as int)),
                uppers@ == all_uppers(self.bag_thresholds@),
                self@.fault(self.bag_thresholds@) == self@.first_fault(uppers@),
                self@.fault(self.bag_thresholds@) is None <==> {
                    &&& every_way_ends(self@, self.bag_thresholds@)
                    &&& meets_once(self@.listing(self.bag_thresholds@))
                    &&& self@.listing(self.bag_thresholds@).len() == self@.counter
                    &&& every_bag_is_sound(self@, self.bag_thresholds@)
                },
            decreases uppers@.len() - i,
        {
            proof {
                lemma_all_uppers(self.bag_thresholds@);
                assert(uppers@.contains(uppers@[i as int]));
            }
            let bag = Bag::get_or_make(self, uppers[i]);
            assert(uppers@.skip(i as int).drop_first() =~= uppers@.skip(i + 1));
            assert(uppers@.skip(i as int)[0] == uppers@[i as int]);
            if let Err(fault) = bag.sanity_check(self) {
                return Err(fault);
            }
            i += 1;
        }
        Ok(())
    }

    /// `true` if going through all bags ends and meets every voter once.
    fn all_once(&self, uppers: &Vec<VoteWeight>) -> (r: bool)
        requires
            uppers@ == all_uppers(self.bag_thresholds@),
        ensures
            r == (self@.listing_ends(self.bag_thresholds@) && ids(
                self@.listing(self.bag_thresholds@),
            ).no_duplicates()),
    {
        let ghost thresholds = self.bag_thresholds@;
        let ghost descending = uppers@.reverse();
        let mut seen_in_list: BTreeSet<A> = BTreeSet::new();
        let mut left: usize = uppers.len();
        assert(ids(self@.listing_of(descending, 0)) =~= Seq::empty());
        assert(ids(self@.listing_of(descending, 0)).to_set() =~= Set::empty());
        while left > 0
            invariant
                thresholds == self.bag_thresholds@,
                uppers@ == all_uppers(thresholds),
                descending == uppers@.reverse(),
                left <= uppers@.len(),
                seen_in_list@ == ids(
                    self@.listing_of(descending, (uppers@.len() - left) as nat),
                ).to_set(),
                ids(self@.listing_of(descending, (uppers@.len() - left) as nat)).no_duplicates(),
                forall|i: int|
                    left <= i < uppers@.len() ==> walk_ends(
                        self@.nodes,
                        self@.bag_or_new(#[trigger] uppers@[i]).head,
                    ),
            decreases left,
        {
            left -= 1;
            let upper: VoteWeight = uppers[left];
            proof {
                lemma_all_uppers(thresholds);
                assert(uppers@.contains(upper));
                assert(is_bag(thresholds, upper));
            }
            let bag = Bag::get_or_make(self, upper);
            let ghost k = (uppers@.len() - left) as nat;
            let ghost part = traversal(self@.nodes, bag.head);
            let ghost before = self@.listing_of(descending, (k - 1) as nat);
            proof {
                assert(descending[k - 1] == upper);
                assert(self@.listing_of(descending, k) == before + part);
                assert(ids(before + part) =~= ids(before) + ids(part));
                lemma_joined_once(ids(before), ids(part));
            }
            if !bag.all_new(self, &mut seen_in_list) {
                proof {
                    if self@.listing_ends(thresholds) {
                        let whole = self@.listing(thresholds);
                        lemma_listing_grows(self@, descending, k, descending.len());
                        let (i, j) = choose|i: int, j: int|
                            0 <= i < j < ids(before + part).len() && ids(before + part)[i] == ids(
                                before + part,
                            )[j];
                        assert(whole[i] == (before + part)[i]);
                        assert(whole[j] == (before + part)[j]);
                        assert(ids(whole)[i] == ids(whole)[j]);
                    }
                }
                return false;
            }
        }
        proof {
            lemma_all_uppers(thresholds);
            assert forall|upper: VoteWeight| #[trigger] is_bag(thresholds, upper) implies walk_ends(
                self@.nodes,
                self@.bag_or_new(upper).head,
            ) by {
                assert(uppers@.contains(upper));
            }
        }
        true
    }

    /// Put each of `bags` back into the list.
    fn put_all(&mut self, bags: &BTreeMap<VoteWeight, Bag<A>>)
        requires
            forall|upper: VoteWeight| #[trigger]
                bags@.contains_key(upper) ==> bags@[upper].bag_upper == upper,
        ensures
            final(self)@ == (Contents {
                bags: settled(old(self)@.bags, bags@, bags@.dom()),
                ..old(self)@
            }),
            final(self).bag_thresholds == old(self).bag_thresholds,
    {
        proof {
            lemma_weights_ordered();
        }
        let ghost mut done: Set<VoteWeight> = Set::empty();
        assert(settled(self@.bags, bags@, done) =~= self@.bags);
        for entry in it: bags.iter()
            invariant
                forall|upper: VoteWeight| #[trigger]
                    bags@.contains_key(upper) ==> bags@[upper].bag_upper == upper,
                forall|upper: VoteWeight| #[trigger]
                    done.contains(upper) <==> exists|j: int|
                        0 <= j < it.index() && *(#[trigger] it.seq()[j]).0 == upper,
                forall|j: int|
                    0 <= j < it.seq().len() ==> bags@.contains_key(*(#[trigger] it.seq()[j]).0)
                        && bags@[*it.seq()[j].0] == *it.seq()[j].1,
                forall|upper: VoteWeight| #[trigger]
                    bags@.contains_key(upper) ==> exists|j: int|
                        0 <= j < it.seq().len() && *(#[trigger] it.seq()[j]).0 == upper,
                self@ == (Contents {
                    bags: settled(old(self)@.bags, bags@, done),
                    ..old(self)@
                }),
                self.bag_thresholds == old(self).bag_thresholds,
        {
            let bag = entry.1.clone();
            let ghost upper = *entry.0;
            bag.put(self);
            proof {
                assert(settled(old(self)@.bags, bags@, done.insert(upper)) =~= self@.bags);
                done = done.insert(upper);
            }
        }
        assert(done =~= bags@.dom());
    }
}

} // verus!
