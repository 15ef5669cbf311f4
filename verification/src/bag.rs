//! The bags: doubly-linked lists of voters.

use crate::account::{copy_id, copy_link, is_id, lemma_weights_ordered, ordered, AccountId};
use crate::following::{
    along, goes_no_further, law_bag_check_tells_the_fault, law_traversal_is_the_whole_way,
    law_walk_goes_along_the_links, sound_bag, whole_way,
};
use crate::links::{
    lemma_chain_traversal, lemma_prefix, lemma_traversal, lemma_walk_starts_traversal,
};
use crate::list::List;
use crate::model::{
    bag_appended, bag_fault, bag_put, bag_unlinked, excised, first_n, ids, nodes_appended, stored,
    traversal, walk, walk_ends, Contents,
};
use crate::node::Node;
use crate::thresholds::is_bag;
use frame_election_provider_support::VoteWeight;
use sp_std::collections::btree_set::BTreeSet;
use vstd::prelude::*;

verus! {

/// A Bag is a doubly-linked list of voters.
///
/// Note that we maintain both head and tail pointers. While it would be possible to get away
/// with maintaining only a head pointer and cons-ing elements onto the front of the list, it's
/// more desirable to ensure that there is some element of first-come, first-serve to the list's
/// iteration so that there's no incentive to churn voter positioning to improve the chances of
/// appearing within the voter set.
#[derive(Debug, PartialEq, Eq)]
pub struct Bag<A> {
    pub head: Option<A>,
    pub tail: Option<A>,
    pub bag_upper: VoteWeight,
}

impl<A: AccountId> Clone for Bag<A> {
    fn clone(&self) -> (r: Self)
        ensures
            r == *self,
    {
        Bag {
            head: copy_link(&self.head),
            tail: copy_link(&self.tail),
            bag_upper: self.bag_upper,
        }
    }
}

impl<A> Default for Bag<A> {
    fn default() -> (r: Self)
        ensures
            r.head is None,
            r.tail is None,
            r.bag_upper == 0,
    {
        Bag { head: None, tail: None, bag_upper: 0 }
    }
}

impl<A: AccountId> Bag<A> {
    /// A bag with the given ends.
    pub fn new(head: Option<A>, tail: Option<A>, bag_upper: VoteWeight) -> (r: Self)
        ensures
            r == (Bag { head, tail, bag_upper }),
    {
        Bag { head, tail, bag_upper }
    }

    /// Get a bag by its upper vote weight, which must be one of the thresholds or the greatest vote
    /// weight there is.
    pub fn get(list: &List<A>, bag_upper: VoteWeight) -> (r: Option<Bag<A>>)
        requires
            is_bag(list.bag_thresholds@, bag_upper),
        ensures
            r is Some <==> list@.bags.contains_key(bag_upper),
            r is Some ==> r->0 == (Bag { bag_upper, ..list@.bags[bag_upper] }),
            r is Some && list@.linked() ==> walk_ends(list@.nodes, r->0.head) && ids(
                traversal(list@.nodes, r->0.head),
            ) == list@.lines()[bag_upper],
    {
        proof {
            if list@.linked() && list@.lines().contains_key(bag_upper) {
                let bag = list@.bags[bag_upper];
                lemma_chain_traversal(
                    list@.nodes,
                    list@.lines()[bag_upper],
                    bag_upper,
                    bag.head,
                    bag.tail,
                );
            }
        }
        Bag::stored_at(list, bag_upper)
    }

    /// Get a bag by its upper vote weight or make it, appropriately initialized. The weight must be
    /// one of the thresholds or the greatest vote weight there is.
    pub fn get_or_make(list: &List<A>, bag_upper: VoteWeight) -> (r: Bag<A>)
        requires
            is_bag(list.bag_thresholds@, bag_upper),
        ensures
            r == list@.bag_or_new(bag_upper),
    {
        Bag::stored_at_or_new(list, bag_upper)
    }

    /// The bag that is stored by an upper vote weight, which need not be one of the thresholds any
    /// more.
    pub(crate) fn stored_at(list: &List<A>, bag_upper: VoteWeight) -> (r: Option<Bag<A>>)
        ensures
            r is Some <==> list@.bags.contains_key(bag_upper),
            r is Some ==> r->0 == (Bag { bag_upper, ..list@.bags[bag_upper] }),
    {
        proof {
            lemma_weights_ordered();
        }
        match list.voter_bags.get(&bag_upper) {
            Some(stored_bag) => {
                let mut bag = stored_bag.clone();
                bag.bag_upper = bag_upper;
                Some(bag)
            },
            None => None,
        }
    }

    /// The bag that is stored by an upper vote weight, or an empty one.
    pub(crate) fn stored_at_or_new(list: &List<A>, bag_upper: VoteWeight) -> (r: Bag<A>)
        ensures
            r == list@.bag_or_new(bag_upper),
    {
        match Bag::stored_at(list, bag_upper) {
            Some(bag) => bag,
            None => {
                let mut bag: Bag<A> = Bag::default();
                bag.bag_upper = bag_upper;
                bag
            },
        }
    }

    /// `True` if self is empty.
    pub fn is_empty(&self) -> (r: bool)
        ensures
            r == (self.head is None && self.tail is None),
    {
        self.head.is_none() && self.tail.is_none()
    }

    /// Put the bag back into the list. An empty bag is not kept.
    pub fn put(self, list: &mut List<A>)
        ensures
            final(list)@ == (Contents {
                bags: bag_put(old(list)@.bags, self),
                ..old(list)@
            }),
            final(list).bag_thresholds == old(list).bag_thresholds,
    {
        proof {
            lemma_weights_ordered();
        }
        if self.is_empty() {
            list.voter_bags.remove(&self.bag_upper);
        } else {
            list.voter_bags.insert(self.bag_upper, self);
        }
    }

    /// Get the head node in this bag.
    pub fn head(&self, list: &List<A>) -> (r: Option<Node<A>>)
        ensures
            r == stored(list@.nodes, self.head),
    {
        match &self.head {
            Some(id) => Node::get(list, id),
            None => None,
        }
    }

    /// Get the tail node in this bag.
    pub fn tail(&self, list: &List<A>) -> (r: Option<Node<A>>)
        ensures
            r == stored(list@.nodes, self.tail),
    {
        match &self.tail {
            Some(id) => Node::get(list, id),
            None => None,
        }
    }

    /// Insert a new voter into this bag.
    ///
    /// This doesn't check whether this is the appropriate bag for this voter at all. Generally, use
    /// [`List::insert`] instead.
    ///
    /// This changes the list, but only its nodes. You still need to call `self.put()` after use.
    pub fn insert(&mut self, list: &mut List<A>, id: A)
        ensures
            old(self).tail != Some(id) ==> {
                &&& *final(self) == bag_appended(*old(self), id)
                &&& final(list)@ == (Contents {
                    nodes: nodes_appended(old(list)@.nodes, *old(self), id),
                    ..old(list)@
                })
            },
            old(self).tail == Some(id) ==> *final(self) == *old(self) && final(list)@ == old(list)@,
            final(list).bag_thresholds == old(list).bag_thresholds,
    {
        let bag_upper: VoteWeight = self.bag_upper;
        // insert_node will overwrite `prev`, `next` and `bag_upper` to the proper values.
        self.insert_node(list, Node { id, prev: None, next: None, bag_upper });
    }

    /// Insert a voter node into this bag. A node who is the tail already is left where it is.
    ///
    /// This doesn't check whether this is the appropriate bag for this voter at all. Generally, use
    /// [`List::insert`] instead.
    ///
    /// This changes the list, but only its nodes. You still need to call `self.put()` after use.
    pub fn insert_node(&mut self, list: &mut List<A>, node: Node<A>)
        ensures
            old(self).tail != Some(node.id) ==> {
                &&& *final(self) == bag_appended(*old(self), node.id)
                &&& final(list)@ == (Contents {
                    nodes: nodes_appended(old(list)@.nodes, *old(self), node.id),
                    ..old(list)@
                })
            },
            old(self).tail == Some(node.id) ==> *final(self) == *old(self) && final(list)@ == old(
                list,
            )@,
            final(list).bag_thresholds == old(list).bag_thresholds,
    {
        if is_id(&self.tail, &node.id) {
            // this should never happen, but this check prevents a worst case infinite loop
            return;
        }
        let mut node = node;

        // re-set the `bag_upper`. Regardless of whatever the node had previously, now it is going
        // to be `self.bag_upper`.
        node.bag_upper = self.bag_upper;

        // update this node now, treating as the new tail.
        let id = copy_id(&node.id);
        node.prev = copy_link(&self.tail);
        node.next = None;
        node.put(list);

        // update the previous tail
        if let Some(mut old_tail) = self.tail(list) {
            old_tail.next = Some(copy_id(&id));
            old_tail.put(list);
        }
        self.tail = Some(copy_id(&id));

        // ensure head exist. This is only set when the length of the bag is just 1, i.e. if this is
        // the first insertion into the bag. In this case, both head and tail should point to the
        // same voter node.
        if self.head.is_none() {
            self.head = Some(id);
        }
    }

    /// Remove a voter node from this bag. Returns true iff the bag's head or tail is updated.
    ///
    /// This doesn't check whether this bag contains the voter in the first place. Generally, use
    /// [`List::remove`] instead.
    ///
    /// This changes the list, but only the adjacent nodes. You still need to call `self.put()` and
    /// to remove the node itself.
    pub fn remove_node(&mut self, list: &mut List<A>, node: &Node<A>) -> (updated: bool)
        ensures
            *final(self) == bag_unlinked(*old(self), *node),
            final(list)@ == (Contents { nodes: excised(old(list)@.nodes, *node), ..old(list)@ }),
            final(list).bag_thresholds == old(list).bag_thresholds,
            updated == (old(self).head == Some(node.id) || old(self).tail == Some(node.id)),
            !updated ==> *final(self) == *old(self),
    {
        // reassign neighboring nodes.
        node.excise(list);

        // clear the bag head/tail pointers as necessary
        let mut updated: bool = false;
        if is_id(&self.tail, &node.id) {
            self.tail = copy_link(&node.prev);
            updated = true;
        }
        if is_id(&self.head, &node.id) {
            self.head = copy_link(&node.next);
            updated = true;
        }
        updated
    }

    /// The nodes in this bag, from the head on.
    pub fn iter(&self, list: &List<A>) -> (r: Vec<Node<A>>)
        requires
            walk_ends(list@.nodes, self.head),
        ensures
            r@ == traversal(list@.nodes, self.head),
            whole_way(list@.nodes, self.head, r@),
    {
        proof {
            law_traversal_is_the_whole_way(
                list@.nodes,
                self.head,
                traversal(list@.nodes, self.head),
            );
        }
        let ghost nodes = list@.nodes;
        let ghost limit = choose|limit: nat| #[trigger]
            walk(nodes, self.head, limit).len() < limit;
        let ghost mut start = self.head;
        let mut found: Vec<Node<A>> = Vec::new();
        let mut cursor = self.head(list);
        assert(walk(nodes, self.head, limit) =~= found@ + walk(nodes, start, limit));
        while cursor.is_some()
            invariant
                nodes == list@.nodes,
                cursor == stored(nodes, start),
                found@.len() < limit,
                walk(nodes, self.head, limit).len() < limit,
                walk(nodes, self.head, limit) == found@ + walk(
                    nodes,
                    start,
                    (limit - found@.len()) as nat,
                ),
            ensures
                cursor is None,
            decreases limit - found@.len(),
        {
            if let Some(node) = cursor {
                cursor = node.next(list);
                proof {
                    let left = (limit - found@.len()) as nat;
                    assert(walk(nodes, start, left) == seq![node] + walk(
                        nodes,
                        node.next,
                        (left - 1) as nat,
                    ));
                    assert(found@ + walk(nodes, start, left) =~= found@.push(node) + walk(
                        nodes,
                        node.next,
                        (left - 1) as nat,
                    ));
                    start = node.next;
                }
                found.push(node);
            }
        }
        assert(found@ + walk(nodes, start, (limit - found@.len()) as nat) =~= found@);
        found
    }

    /// The first `n` nodes in this bag, or all of them where there are fewer. Only as many nodes are
    /// looked at.
    pub fn iter_take(&self, list: &List<A>, n: usize) -> (r: Vec<Node<A>>)
        ensures
            r@ == walk(list@.nodes, self.head, n as nat),
            r@.len() <= n,
            along(list@.nodes, self.head, r@),
            r@.len() < n ==> goes_no_further(list@.nodes, self.head, r@),
            walk_ends(list@.nodes, self.head) ==> r@ == first_n(
                traversal(list@.nodes, self.head),
                n as nat,
            ),
    {
        let ghost nodes = list@.nodes;
        let ghost mut start = self.head;
        let mut found: Vec<Node<A>> = Vec::new();
        proof {
            law_walk_goes_along_the_links(nodes, self.head, n as nat);
            assert(walk(nodes, self.head, n as nat) =~= found@ + walk(nodes, start, n as nat));
            if walk_ends(nodes, self.head) {
                lemma_walk_starts_traversal(nodes, self.head, n as nat);
            }
        }
        if n == 0 {
            return found;
        }
        let mut cursor = self.head(list);
        while found.len() < n && cursor.is_some()
            invariant
                nodes == list@.nodes,
                n > 0,
                found@.len() <= n,
                found@.len() < n ==> cursor == stored(nodes, start),
                walk(nodes, self.head, n as nat) == found@ + walk(
                    nodes,
                    start,
                    (n - found@.len()) as nat,
                ),
            decreases n - found@.len(),
        {
            if let Some(node) = cursor {
                proof {
                    let left = (n - found@.len()) as nat;
                    assert(found@ + walk(nodes, start, left) =~= found@.push(node) + walk(
                        nodes,
                        node.next,
                        (left - 1) as nat,
                    ));
                    start = node.next;
                }
                cursor = if found.len() + 1 < n {
                    node.next(list)
                } else {
                    None
                };
                found.push(node);
            }
        }
        assert(found@ + walk(nodes, start, (n - found@.len()) as nat) =~= found@);
        found
    }

    /// Follow the links of this bag from the head on, as long as they lead to voters who are not
    /// among `seen`, adding each to `seen`. `true` if the whole bag was new.
    pub(crate) fn all_new(&self, list: &List<A>, seen: &mut BTreeSet<A>) -> (r: bool)
        ensures
            r == (walk_ends(list@.nodes, self.head) && ids(
                traversal(list@.nodes, self.head),
            ).no_duplicates() && ids(traversal(list@.nodes, self.head)).to_set().disjoint(
                old(seen)@,
            )),
            r ==> final(seen)@ == old(seen)@.union(
                ids(traversal(list@.nodes, self.head)).to_set(),
            ),
    {
        proof {
            A::lawful();
        }
        let ghost nodes = list@.nodes;
        let ghost before = seen@;
        let ghost mut start = self.head;
        let ghost mut met: Seq<Node<A>> = Seq::empty();
        let ghost mut keys: Set<A> = Set::empty();
        let mut cursor = self.head(list);
        proof {
            assert(ids(met) =~= Seq::empty());
            assert(before =~= before.union(ids(met).to_set()));
            assert forall|limit: nat| limit >= met.len() implies #[trigger] walk(
                nodes,
                self.head,
                limit,
            ) == met + walk(nodes, start, (limit - met.len()) as nat) by {
                assert(met + walk(nodes, start, limit) =~= walk(nodes, start, limit));
            }
        }
        while cursor.is_some()
            invariant
                ordered::<A>(),
                nodes == list@.nodes,
                nodes.dom().finite(),
                before == old(seen)@,
                cursor == stored(nodes, start),
                seen@ == before.union(ids(met).to_set()),
                ids(met).no_duplicates(),
                ids(met).to_set().disjoint(before),
                forall|limit: nat|
                    limit >= met.len() ==> #[trigger] walk(nodes, self.head, limit) == met + walk(
                        nodes,
                        start,
                        (limit - met.len()) as nat,
                    ),
                keys.subset_of(nodes.dom()),
                keys.len() == met.len(),
                forall|key: A| #[trigger]
                    keys.contains(key) ==> ids(met).contains(nodes[key].id),
            ensures
                cursor is None,
            decreases nodes.dom().len() - keys.len(),
        {
            if let Some(node) = cursor {
                let ghost key = start->0;
                let ghost longer = met.push(node);
                proof {
                    assert(ids(longer) =~= ids(met).push(node.id));
                    assert forall|limit: nat| limit >= longer.len() implies #[trigger] walk(
                        nodes,
                        self.head,
                        limit,
                    ) == longer + walk(nodes, node.next, (limit - longer.len()) as nat) by {
                        let left = (limit - met.len()) as nat;
                        assert(walk(nodes, start, left) == seq![node] + walk(
                            nodes,
                            node.next,
                            (left - 1) as nat,
                        ));
                        assert(met + walk(nodes, start, left) =~= longer + walk(
                            nodes,
                            node.next,
                            (left - 1) as nat,
                        ));
                    }
                }
                let is_new = seen.insert(copy_id(&node.id));
                if !is_new {
                    proof {
                        if walk_ends(nodes, self.head) {
                            lemma_prefix(nodes, self.head, longer, node.next);
                            let whole = traversal(nodes, self.head);
                            assert(whole[met.len() as int] == node);
                            assert(ids(whole)[met.len() as int] == node.id);
                            if before.contains(node.id) {
                                assert(ids(whole).to_set().contains(node.id));
                            } else {
                                assert(ids(met).to_set().contains(node.id));
                                let i = choose|i: int|
                                    0 <= i < ids(met).len() && ids(met)[i] == node.id;
                                assert(whole[i] == longer[i]);
                                assert(ids(whole)[i] == node.id);
                            }
                        }
                    }
                    return false;
                }
                proof {
                    assert(!keys.contains(key));
                    assert(!ids(met).contains(node.id)) by {
                        assert(!ids(met).to_set().contains(node.id));
                    }
                    assert(ids(longer).to_set() =~= ids(met).to_set().insert(node.id)) by {
                        assert(ids(longer)[met.len() as int] == node.id);
                        assert forall|id: A| #[trigger] ids(met).to_set().contains(id) implies ids(
                            longer,
                        ).to_set().contains(id) by {
                            let i = choose|i: int| 0 <= i < ids(met).len() && ids(met)[i] == id;
                            assert(ids(longer)[i] == id);
                        }
                        assert forall|id: A| #[trigger] ids(longer).to_set().contains(id) implies
                            ids(met).to_set().insert(node.id).contains(id) by {
                            let i = choose|i: int|
                                0 <= i < ids(longer).len() && ids(longer)[i] == id;
                            if i < met.len() {
                                assert(ids(met)[i] == id);
                            }
                        }
                    }
                    assert(seen@ =~= before.union(ids(longer).to_set()));
                    assert forall|k: A| #[trigger] keys.insert(key).contains(k) implies ids(
                        longer,
                    ).contains(nodes[k].id) by {
                        if k != key {
                            assert(ids(met).to_set().contains(nodes[k].id));
                        }
                        assert(ids(longer).to_set().contains(nodes[k].id));
                    }
                    keys = keys.insert(key);
                    vstd::set_lib::lemma_len_subset(keys, nodes.dom());
                    met = longer;
                    start = node.next;
                }
                cursor = node.next(list);
            }
        }
        proof {
            assert(walk(nodes, start, 1) =~= Seq::empty());
            assert(walk(nodes, self.head, met.len() + 1) =~= met);
            lemma_traversal(nodes, self.head, met.len() + 1);
        }
        true
    }

    /// Sanity check this bag.
    ///
    /// * Ensures head has no prev.
    /// * Ensures tail has no next.
    /// * Ensures there are no loops, traversal from head to tail is correct.
    pub fn sanity_check(&self, list: &List<A>) -> (r: Result<(), &'static str>)
        ensures
            match r {
                Ok(_) => bag_fault(list@.nodes, *self) is None,
                Err(fault) => bag_fault(list@.nodes, *self) == Some(fault@),
            },
            r is Ok <==> sound_bag(list@.nodes, *self),
    {
        proof {
            law_bag_check_tells_the_fault(list@.nodes, *self);
        }
        let head_is_first = match self.head(list) {
            Some(head) => head.prev(list).is_none(),
            // if there is no head, then there must not be a tail, meaning that the bag is empty.
            None => self.tail.is_none(),
        };
        if !head_is_first {
            return Err("head has a prev");
        }
        let tail_is_last = match self.tail(list) {
            Some(tail) => tail.next(list).is_none(),
            // if there is no tail, then there must not be a head, meaning that the bag is empty.
            None => self.head.is_none(),
        };
        if !tail_is_last {
            return Err("tail has a next");
        }
        let mut seen_in_bag: BTreeSet<A> = BTreeSet::new();
        // each voter is only seen once, thus there is no cycle within a bag
        if !self.all_new(list, &mut seen_in_bag) {
            return Err("duplicate found in bag");
        }
        // the last voter on the way from the head is the tail
        let nodes = self.iter(list);
        let tail_is_reached = match nodes.last() {
            Some(last) => is_id(&self.tail, &last.id),
            None => self.tail.is_none(),
        };
        if !tail_is_reached {
            return Err("tail is not reached from head");
        }
        Ok(())
    }
}

} // verus!
